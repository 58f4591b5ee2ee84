//! The database: the four components behind a single-writer,
//! multiple-reader transaction boundary.
//!
//! The committed state is only ever replaced wholesale: a write
//! transaction stages a copy, mutates it, and commits by swapping it in;
//! a failure simply drops the staged copy, so nothing partial is ever
//! visible.  A read transaction is an owned snapshot of the committed
//! state, so a write committing later can never change what it observes.

use vstd::prelude::*;
use crate::errors::DbError;
use crate::extids::ExtIdMap;
use crate::fields::{dict_after, lemma_dict_after_distinct, lemma_dict_after_extends, FieldDict};
use crate::index::{has_posting, index_exact, prefix_hit, IndexView, TextIndex};
use crate::rank::{
    dedup, doc_has_token, doc_matches, ids_at_level, lemma_contains_push, lemma_dedup_contains,
    lemma_match_count_le, match_count, query_tokens, ranked, ranked_from, take_at_most,
};
use crate::store::DocStore;
use crate::tokenize::{contains_tok, tokenize, tokens_of, views_of};
use crate::value::{copy_bytes, DocView, Document, FieldValue, RecView, Record, ValueView};

verus! {

/// The semantic model of a database state: the field dictionary, the
/// external ids in internal-id order, and the documents in internal-id
/// order.  The text index is not part of the model: its posting relation
/// is pinned to the documents by well-formedness.
#[verifier::ext_equal]
pub ghost struct StateView {
    pub fields: Seq<Seq<u8>>,
    pub ext: Seq<u64>,
    pub docs: Seq<DocView>,
}

/// Semantic well-formedness of a state.
pub open spec fn sem_wf(s: StateView) -> bool {
    &&& forall|i: int, j: int| 0 <= i < j < s.ext.len() ==> s.ext[i] != s.ext[j]
    &&& forall|i: int, j: int| 0 <= i < j < s.fields.len() ==> s.fields[i] != s.fields[j]
    &&& s.docs.len() == s.ext.len()
    &&& forall|d: int, k: int|
        0 <= d < s.docs.len() && 0 <= k < s.docs[d].len() ==> (s.docs[d][k].0 as int)
            < s.fields.len()
    &&& s.ext.len() <= u32::MAX
    &&& s.fields.len() <= u32::MAX
}

/// The four components of one consistent state.
pub struct State {
    pub fields: FieldDict,
    pub ext: ExtIdMap,
    pub docs: DocStore,
    pub index: TextIndex,
}

impl View for State {
    type V = StateView;

    open spec fn view(&self) -> StateView {
        StateView { fields: self.fields@, ext: self.ext@, docs: self.docs@ }
    }
}

impl State {
    /// Well-formed: semantically consistent, and the text index holds a
    /// posting exactly for each token of each stored document.
    pub open spec fn wf(&self) -> bool {
        sem_wf(self@) && index_exact(self.index@, self@.docs)
    }

    /// An empty state.
    pub fn new() -> (r: Self)
        ensures
            r.wf(),
            r@.fields.len() == 0,
            r@.ext.len() == 0,
            r@.docs.len() == 0,
    {
        State { fields: FieldDict::new(), ext: ExtIdMap::new(), docs: DocStore::new(), index: TextIndex::new() }
    }

    /// A copy of the state.
    pub fn duplicate(&self) -> (r: Self)
        ensures
            r@ == self@,
            r.index@ == self.index@,
    {
        let r = State {
            fields: self.fields.duplicate(),
            ext: self.ext.duplicate(),
            docs: self.docs.duplicate(),
            index: self.index.duplicate(),
        };
        proof {
            assert(r@ =~= self@);
        }
        r
    }
}

/// The index of `name` in the dictionary `d`, assuming it is present.
pub open spec fn name_id(d: Seq<Seq<u8>>, name: Seq<u8>) -> int {
    choose|i: int| 0 <= i < d.len() && d[i] == name
}

/// The names of a record's fields, in order.
pub open spec fn rec_names(rec: RecView) -> Seq<Seq<u8>> {
    Seq::new(rec.len(), |k: int| rec[k].0)
}

/// The stored form of a record under dictionary `d`: each field name
/// replaced by its field id.
pub open spec fn encode_doc(d: Seq<Seq<u8>>, rec: RecView) -> DocView {
    Seq::new(rec.len(), |k: int| (name_id(d, rec[k].0) as u32, rec[k].1))
}

/// The record form of stored document `id`: each field id replaced by its
/// name.
pub open spec fn decode_doc(s: StateView, id: int) -> RecView {
    Seq::new(s.docs[id].len(), |k: int| (s.fields[s.docs[id][k].0 as int], s.docs[id][k].1))
}

/// The state that inserting `rec` under the fresh external id `external`
/// turns `s` into: the record's names interned, the external id
/// registered, the encoded document stored under the next internal id.
pub open spec fn insert_spec(s: StateView, external: u64, rec: RecView) -> StateView {
    let d2 = dict_after(s.fields, rec_names(rec));
    StateView { fields: d2, ext: s.ext.push(external), docs: s.docs.push(encode_doc(d2, rec)) }
}

/// The record `rec`, restricted to what the token relation sees, has
/// token `t` among its first `f` fields.
pub open spec fn rec_has_token_upto(rec: RecView, f: int, t: Seq<u8>) -> bool {
    exists|i: int|
        0 <= i < f && match #[trigger] rec[i].1 {
            ValueView::Text(s) => tokens_of(s).contains(t),
            ValueView::Data(_) => false,
        }
}

/// The internal id registered for `external`, assuming it is registered.
pub open spec fn resolve_spec(ext: Seq<u64>, external: u64) -> int {
    choose|i: int| 0 <= i < ext.len() && ext[i] == external
}

/// The model of a batch of records, each paired with its external id.
pub open spec fn items_view(v: Seq<(u64, Record)>) -> Seq<(u64, RecView)> {
    Seq::new(v.len(), |k: int| (v[k].0, v[k].1@))
}

/// The total number of fields across a batch.
pub open spec fn total_fields(items: Seq<(u64, RecView)>) -> nat
    decreases items.len(),
{
    if items.len() == 0 {
        0
    } else {
        total_fields(items.drop_last()) + items.last().1.len()
    }
}

/// A prefix of a batch has at most the batch's total number of fields.
pub proof fn lemma_total_fields_take(items: Seq<(u64, RecView)>, k: int)
    requires
        0 <= k <= items.len(),
    ensures
        total_fields(items.take(k)) <= total_fields(items),
    decreases items.len() - k,
{
    if k == items.len() {
        assert(items.take(k) =~= items);
    } else {
        lemma_total_fields_take(items, k + 1);
        assert(items.take(k + 1).drop_last() =~= items.take(k));
    }
}

/// The state after a batch of insertions, applied in order: an item whose
/// external id is already registered leaves the state unchanged.
pub open spec fn batch_after(s: StateView, items: Seq<(u64, RecView)>) -> StateView
    decreases items.len(),
{
    if items.len() == 0 {
        s
    } else {
        let p = batch_after(s, items.drop_last());
        if p.ext.contains(items.last().0) {
            p
        } else {
            insert_spec(p, items.last().0, items.last().1)
        }
    }
}

/// A token of the index starting with `q` names `id` exactly when the
/// document matches `q`, whenever the index is exact for the documents.
pub proof fn lemma_hits_are_matches(idx: IndexView, docs: Seq<DocView>, q: Seq<u8>, id: u32)
    requires
        index_exact(idx, docs),
        (id as int) < docs.len(),
    ensures
        prefix_hit(idx, q, id) == doc_matches(docs[id as int], q),
{
    if prefix_hit(idx, q, id) {
        let t = choose|t: Seq<u8>| crate::tokenize::is_prefix_of(q, t) && has_posting(idx, t, id);
        assert(doc_has_token(docs[id as int], t));
        assert(doc_matches(docs[id as int], q));
    }
    if doc_matches(docs[id as int], q) {
        let t = choose|t: Seq<u8>|
            doc_has_token(docs[id as int], t) && crate::tokenize::is_prefix_of(q, t);
        assert(has_posting(idx, t, id));
        assert(prefix_hit(idx, q, id));
    }
}

/// Rebuild the caller-facing record of `doc`: each field id replaced by
/// the name the dictionary holds for it.
fn decode_with(dict: &FieldDict, doc: &Document) -> (r: Record)
    requires
        forall|k: int| #![trigger doc@[k]] 0 <= k < doc@.len() ==> (doc@[k].0 as int) < dict@.len(),
    ensures
        r@ == Seq::new(doc@.len(), |k: int| (dict@[doc@[k].0 as int], doc@[k].1)),
{
    let mut fields: Vec<(Vec<u8>, FieldValue)> = Vec::new();
    let mut k: usize = 0;
    while k < doc.fields.len()
        invariant
            forall|m: int| #![trigger doc@[m]] 0 <= m < doc@.len() ==> (doc@[m].0 as int) < dict@.len(),
            k <= doc.fields.len(),
            fields@.len() == k,
            forall|m: int|
                #![trigger fields@[m]]
                0 <= m < k ==> fields@[m].0@ == dict@[doc@[m].0 as int] && fields@[m].1@
                    == doc@[m].1,
        decreases doc.fields.len() - k,
    {
        let (fid, value) = &doc.fields[k];
        match dict.name_for(*fid) {
            Ok(name) => {
                fields.push((copy_bytes(name), value.clone()));
            },
            Err(_) => {
                proof {
                    assert((doc@[k as int].0 as int) < dict@.len());
                    assert(false);
                }
            },
        }
        k += 1;
    }
    let r = Record { fields };
    proof {
        assert(r@ =~= Seq::new(doc@.len(), |m: int| (dict@[doc@[m].0 as int], doc@[m].1)));
    }
    r
}

/// The database.  `committed` is the state every new transaction starts
/// from; the `&mut` receiver of the mutating operations is the
/// single-writer boundary.
pub struct Database {
    pub committed: State,
}

impl View for Database {
    type V = StateView;

    open spec fn view(&self) -> StateView {
        self.committed@
    }
}

/// A read transaction: an owned snapshot of the committed state at the
/// time it began.  Writes committing afterwards never change it.
pub struct Snapshot {
    pub state: State,
}

impl View for Snapshot {
    type V = StateView;

    open spec fn view(&self) -> StateView {
        self.state@
    }
}

impl Snapshot {
    /// The snapshot is a well-formed state.
    pub open spec fn wf(&self) -> bool {
        self.state.wf()
    }

    /// The document stored under `internal_id`, rebuilt as a record;
    /// absent, not an error, if the id was never assigned.
    pub fn get_document_by_internal_id(&self, internal_id: u32) -> (r: Option<Record>)
        requires
            self.wf(),
        ensures
            match r {
                Some(rec) => (internal_id as int) < self@.docs.len() && rec@ == decode_doc(
                    self@,
                    internal_id as int,
                ),
                None => (internal_id as int) >= self@.docs.len(),
            },
    {
        match self.state.docs.get_one(internal_id) {
            Some(d) => {
                proof {
                    assert forall|k: int| #![trigger d@[k]] 0 <= k < d@.len() implies (
                    d@[k].0 as int) < self.state.fields@.len() by {
                        assert((self@.docs[internal_id as int][k].0 as int) < self@.fields.len());
                    }
                }
                let rec = decode_with(&self.state.fields, d);
                proof {
                    assert(rec@ =~= decode_doc(self@, internal_id as int));
                }
                Some(rec)
            },
            None => None,
        }
    }

    /// The document registered under `external_id`, rebuilt as a record;
    /// absent, not an error, if the external id is unknown.
    pub fn get_document_by_external_id(&self, external_id: u64) -> (r: Option<Record>)
        requires
            self.wf(),
        ensures
            match r {
                Some(rec) => self@.ext.contains(external_id) && rec@ == decode_doc(
                    self@,
                    resolve_spec(self@.ext, external_id),
                ),
                None => !self@.ext.contains(external_id),
            },
    {
        match self.state.ext.resolve(external_id) {
            Some(i) => {
                proof {
                    assert(self@.ext[i as int] == external_id);
                    assert(self@.ext.contains(external_id));
                    let ri = resolve_spec(self@.ext, external_id);
                    assert(0 <= ri < self@.ext.len() && self@.ext[ri] == external_id);
                    if ri < i as int {
                        assert(self@.ext[ri] != self@.ext[i as int]);
                    }
                    if (i as int) < ri {
                        assert(self@.ext[i as int] != self@.ext[ri]);
                    }
                }
                self.get_document_by_internal_id(i)
            },
            None => None,
        }
    }

    /// Resolve `query` against the text index and hand back at most
    /// `limit` documents: the ranked candidates in order, each paired
    /// with its internal id and rebuilt as a record.
    pub fn search(&self, query: &Vec<u8>, limit: usize) -> (r: Vec<(u32, Record)>)
        requires
            self.wf(),
        ensures
            r@.len() <= limit,
            Seq::new(r@.len(), |k: int| r@[k].0) == take_at_most(
                ranked(self@.docs, query_tokens(query@)),
                limit as int,
            ),
            forall|k: int|
                #![trigger r@[k]]
                0 <= k < r@.len() ==> (r@[k].0 as int) < self@.docs.len() && r@[k].1@ == decode_doc(
                    self@,
                    r@[k].0 as int,
                ),
    {
        let ghost qts = query_tokens(query@);
        // Tokenize and deduplicate the query.
        let toks = tokenize(query);
        let mut q: Vec<Vec<u8>> = Vec::new();
        let mut k: usize = 0;
        while k < toks.len()
            invariant
                views_of(toks@) == tokens_of(query@),
                k <= toks.len(),
                views_of(q@) == dedup(tokens_of(query@).take(k as int)),
            decreases toks.len() - k,
        {
            let ghost qpre = q@;
            let hit = contains_tok(&q, &toks[k]);
            proof {
                let pre = tokens_of(query@).take(k as int);
                assert(tokens_of(query@).take(k as int + 1).drop_last() =~= pre);
                assert(tokens_of(query@).take(k as int + 1).last() == toks@[k as int]@);
                lemma_dedup_contains(pre, toks@[k as int]@);
            }
            if !hit {
                q.push(copy_bytes(&toks[k]));
            }
            k += 1;
            proof {
                assert(views_of(q@) =~= dedup(tokens_of(query@).take(k as int)));
            }
        }
        proof {
            assert(tokens_of(query@).take(toks@.len() as int) =~= tokens_of(query@));
            assert(views_of(q@) == qts);
        }
        let n = self.state.docs.len();
        // Score every document: how many distinct query tokens it matches.
        let mut scores: Vec<usize> = Vec::new();
        let mut i: usize = 0;
        while i < n
            invariant
                i <= n,
                scores@.len() == i,
                forall|m: int| 0 <= m < i ==> scores@[m] == 0,
            decreases n - i,
        {
            scores.push(0);
            i += 1;
        }
        proof {
            assert(qts.take(0) =~= Seq::<Seq<u8>>::empty());
        }
        let mut k2: usize = 0;
        while k2 < q.len()
            invariant
                self.wf(),
                views_of(q@) == qts,
                qts.len() == q@.len(),
                n == self@.docs.len(),
                k2 <= q@.len(),
                scores@.len() == n,
                forall|m: int|
                    #![trigger scores@[m]]
                    0 <= m < n ==> scores@[m] == match_count(self@.docs[m], qts.take(k2 as int)),
            decreases q.len() - k2,
        {
            let mut matched: Vec<bool> = Vec::new();
            let mut i2: usize = 0;
            while i2 < n
                invariant
                    i2 <= n,
                    matched@.len() == i2,
                    forall|m: int| 0 <= m < i2 ==> matched@[m] == false,
                decreases n - i2,
            {
                matched.push(false);
                i2 += 1;
            }
            proof {
                assert forall|t: Seq<u8>, jd: u32|
                    has_posting(self.state.index@, t, jd) implies (jd as int) < matched@.len() by {
                    assert((jd as int) < self@.docs.len());
                }
            }
            self.state.index.mark_matches(&q[k2], &mut matched);
            proof {
                assert forall|m: int| 0 <= m < n implies #[trigger] matched@[m] == doc_matches(
                    self@.docs[m],
                    qts[k2 as int],
                ) by {
                    lemma_hits_are_matches(self.state.index@, self@.docs, q@[k2 as int]@, m as u32);
                }
            }
            // Bump the score of every matched document.
            let mut id: usize = 0;
            while id < n
                invariant
                    n == self@.docs.len(),
                    qts.len() == q@.len(),
                    k2 < q@.len(),
                    k2 < usize::MAX,
                    id <= n,
                    scores@.len() == n,
                    matched@.len() == n,
                    forall|m: int|
                        0 <= m < n ==> #[trigger] matched@[m] == doc_matches(
                            self@.docs[m],
                            qts[k2 as int],
                        ),
                    forall|m: int|
                        #![trigger scores@[m]]
                        0 <= m < id ==> scores@[m] == match_count(
                            self@.docs[m],
                            qts.take(k2 as int + 1),
                        ),
                    forall|m: int|
                        #![trigger scores@[m]]
                        id <= m < n ==> scores@[m] == match_count(self@.docs[m], qts.take(k2 as int)),
                decreases n - id,
            {
                proof {
                    assert(qts.take(k2 as int + 1).drop_last() =~= qts.take(k2 as int));
                    assert(qts.take(k2 as int + 1).last() == qts[k2 as int]);
                    lemma_match_count_le(self@.docs[id as int], qts.take(k2 as int));
                }
                if matched[id] {
                    let s = scores[id];
                    proof {
                        assert(s <= k2);
                    }
                    scores.set(id, s + 1);
                }
                id += 1;
            }
            k2 += 1;
        }
        proof {
            assert(qts.take(qts.len() as int) =~= qts);
        }
        // Collect the candidates: best score level first, ascending
        // internal id within one level.
        let mut ranked_ids: Vec<u32> = Vec::new();
        let mut lvl: usize = q.len();
        while lvl > 0
            invariant
                self.wf(),
                n == self@.docs.len(),
                n <= u32::MAX,
                qts.len() == q@.len(),
                lvl <= q@.len(),
                scores@.len() == n,
                forall|m: int|
                    #![trigger scores@[m]]
                    0 <= m < n ==> scores@[m] == match_count(self@.docs[m], qts),
                ranked(self@.docs, qts) == ranked_ids@ + ranked_from(
                    self@.docs,
                    qts,
                    lvl as nat,
                ),
                forall|m: int| 0 <= m < ranked_ids@.len() ==> (#[trigger] ranked_ids@[m] as int) < n,
            decreases lvl,
        {
            let ghost rpre = ranked_ids@;
            let mut id: usize = 0;
            while id < n
                invariant
                    n == self@.docs.len(),
                    n <= u32::MAX,
                    id <= n,
                    scores@.len() == n,
                    forall|m: int|
                        #![trigger scores@[m]]
                        0 <= m < n ==> scores@[m] == match_count(self@.docs[m], qts),
                    ranked_ids@ == rpre + ids_at_level(self@.docs, qts, lvl as nat, id as int),
                    forall|m: int| 0 <= m < ranked_ids@.len() ==> (#[trigger] ranked_ids@[m] as int) < n,
                decreases n - id,
            {
                if scores[id] == lvl {
                    ranked_ids.push(id as u32);
                    proof {
                        assert(ranked_ids@ =~= rpre + ids_at_level(
                            self@.docs,
                            qts,
                            lvl as nat,
                            id as int + 1,
                        ));
                    }
                } else {
                    proof {
                        assert(ranked_ids@ =~= rpre + ids_at_level(
                            self@.docs,
                            qts,
                            lvl as nat,
                            id as int + 1,
                        ));
                    }
                }
                id += 1;
            }
            lvl -= 1;
            proof {
                assert(ranked(self@.docs, qts) =~= ranked_ids@ + ranked_from(
                    self@.docs,
                    qts,
                    lvl as nat,
                ));
            }
        }
        proof {
            assert(ranked(self@.docs, qts) =~= ranked_ids@);
        }
        // Cap the result at `limit`.
        let ghost full = ranked_ids@;
        ranked_ids.truncate(limit);
        proof {
            assert(ranked_ids@ == take_at_most(full, limit as int));
        }
        // Fetch the capped candidates and rebuild their records.
        let mut out: Vec<(u32, Record)> = Vec::new();
        let mut h: usize = 0;
        while h < ranked_ids.len()
            invariant
                self.wf(),
                n == self@.docs.len(),
                h <= ranked_ids@.len(),
                forall|m: int| 0 <= m < ranked_ids@.len() ==> (#[trigger] ranked_ids@[m] as int) < n,
                out@.len() == h,
                forall|m: int|
                    #![trigger out@[m]]
                    0 <= m < h ==> out@[m].0 == ranked_ids@[m] && (out@[m].0 as int) < n
                        && out@[m].1@ == decode_doc(self@, out@[m].0 as int),
            decreases ranked_ids.len() - h,
        {
            let id = ranked_ids[h];
            match self.state.docs.get_one(id) {
                Some(d) => {
                    proof {
                        assert forall|kk: int| #![trigger d@[kk]] 0 <= kk < d@.len() implies (
                        d@[kk].0 as int) < self.state.fields@.len() by {
                            assert((self@.docs[id as int][kk].0 as int) < self@.fields.len());
                        }
                    }
                    let rec = decode_with(&self.state.fields, d);
                    proof {
                        assert(rec@ =~= decode_doc(self@, id as int));
                    }
                    out.push((id, rec));
                },
                None => {
                    proof {
                        assert(false);
                    }
                },
            }
            h += 1;
        }
        proof {
            assert(Seq::new(out@.len(), |m: int| out@[m].0) =~= ranked_ids@);
        }
        out
    }
}

impl Database {
    /// Well-formed: the committed state is.
    pub open spec fn wf(&self) -> bool {
        self.committed.wf()
    }

    /// An empty database.
    pub fn new() -> (r: Self)
        ensures
            r.wf(),
            r@.fields.len() == 0,
            r@.ext.len() == 0,
            r@.docs.len() == 0,
    {
        Database { committed: State::new() }
    }

    /// Begin a read transaction: a snapshot of the committed state.
    pub fn begin_read(&self) -> (r: Snapshot)
        requires
            self.wf(),
        ensures
            r.wf(),
            r@ == self@,
    {
        Snapshot { state: self.committed.duplicate() }
    }

    /// Insert `document` under `external_id`, atomically updating the
    /// field dictionary, the external-id map, the document store and the
    /// text index; fails with `DuplicateExternalId`, changing nothing, if
    /// `external_id` is already registered.
    pub fn add_document(&mut self, external_id: u64, document: &Record) -> (r: Result<
        u32,
        DbError,
    >)
        requires
            old(self).wf(),
            old(self)@.ext.len() < u32::MAX,
            old(self)@.fields.len() + document@.len() <= u32::MAX,
        ensures
            final(self).wf(),
            match r {
                Ok(id) => !old(self)@.ext.contains(external_id) && id == old(self)@.ext.len()
                    && final(self)@ == insert_spec(old(self)@, external_id, document@),
                Err(e) => e == DbError::DuplicateExternalId && old(self)@.ext.contains(external_id)
                    && *final(self) == *old(self),
            },
    {
        // Begin a write transaction: stage a copy of the committed state.
        let mut staged = self.committed.duplicate();
        // Register the external id; a duplicate aborts the transaction by
        // dropping the staged copy before anything becomes visible.
        let internal = match staged.ext.register(external_id) {
            Ok(i) => i,
            Err(e) => {
                return Err(e);
            },
        };
        let ghost s0 = old(self)@;
        let ghost rec = document@;
        let ghost d2 = dict_after(s0.fields, rec_names(rec));
        // Resolve or allocate a field id for every field name, building
        // the stored document.
        let mut doc_fields: Vec<(u32, FieldValue)> = Vec::new();
        let mut k: usize = 0;
        while k < document.fields.len()
            invariant
                staged.ext@ == s0.ext.push(external_id),
                staged.ext.wf(),
                staged.docs@ == s0.docs,
                staged.index@ == old(self).committed.index@,
                staged.fields.wf(),
                sem_wf(s0),
                index_exact(staged.index@, s0.docs),
                rec == document@,
                s0.fields.len() + rec.len() <= u32::MAX,
                k <= document.fields.len(),
                rec.len() == document.fields.len(),
                staged.fields@ == dict_after(s0.fields, rec_names(rec).take(k as int)),
                staged.fields@.len() <= s0.fields.len() + k,
                doc_fields@.len() == k,
                forall|m: int|
                    #![trigger doc_fields@[m]]
                    0 <= m < k ==> (doc_fields@[m].0 as int) < staged.fields@.len()
                        && staged.fields@[doc_fields@[m].0 as int] == rec[m].0
                        && doc_fields@[m].1@ == rec[m].1,
            decreases document.fields.len() - k,
        {
            let ghost dpre = staged.fields@;
            proof {
                lemma_dict_after_extends(s0.fields, rec_names(rec).take(k as int));
            }
            let (name, value) = &document.fields[k];
            let fid = staged.fields.id_for(name);
            doc_fields.push((fid, value.clone()));
            k += 1;
            proof {
                assert(rec_names(rec).take(k as int).drop_last() =~= rec_names(rec).take(k - 1));
                assert(rec_names(rec).take(k as int).last() == rec[k - 1].0);
                assert(staged.fields@ == dict_after(s0.fields, rec_names(rec).take(k as int)));
            }
        }
        proof {
            assert(rec_names(rec).take(rec.len() as int) =~= rec_names(rec));
            assert(staged.fields@ == d2);
            lemma_dict_after_extends(s0.fields, rec_names(rec));
            lemma_dict_after_distinct(s0.fields, rec_names(rec));
            assert forall|m: int| 0 <= m < rec.len() implies (doc_fields@[m].0, doc_fields@[m].1@)
                == encode_doc(d2, rec)[m] by {
                let fid = doc_fields@[m].0;
                assert((fid as int) < d2.len() && d2[fid as int] == rec[m].0);
                let ni = name_id(d2, rec[m].0);
                assert(0 <= ni < d2.len() && d2[ni] == rec[m].0);
                if ni < fid as int {
                    assert(d2[ni] != d2[fid as int]);
                }
                if (fid as int) < ni {
                    assert(d2[fid as int] != d2[ni]);
                }
            }
        }
        let doc = Document { fields: doc_fields };
        proof {
            assert(doc@ =~= encode_doc(d2, rec));
        }
        // Add a posting for every token of every textual field value.
        let ghost idx0 = old(self).committed.index@;
        let mut f: usize = 0;
        while f < document.fields.len()
            invariant
                rec == document@,
                rec.len() == document.fields.len(),
                f <= document.fields.len(),
                staged.fields@ == d2,
                staged.fields.wf(),
                staged.ext@ == s0.ext.push(external_id),
                staged.ext.wf(),
                staged.docs@ == s0.docs,
                forall|t: Seq<u8>, jd: u32|
                    #![trigger has_posting(staged.index@, t, jd)]
                    has_posting(staged.index@, t, jd) == (has_posting(idx0, t, jd) || (jd
                        == internal && rec_has_token_upto(rec, f as int, t))),
            decreases document.fields.len() - f,
        {
            let ghost ipre = staged.index@;
            match &document.fields[f].1 {
                FieldValue::Text(text) => {
                    let toks = tokenize(text);
                    let ghost sv = text@;
                    let mut j: usize = 0;
                    while j < toks.len()
                        invariant
                            rec == document@,
                            rec.len() == document.fields.len(),
                            f < document.fields.len(),
                            rec[f as int].1 == ValueView::Text(sv),
                            views_of(toks@) == tokens_of(sv),
                            j <= toks.len(),
                            staged.fields@ == d2,
                            staged.fields.wf(),
                            staged.ext@ == s0.ext.push(external_id),
                            staged.ext.wf(),
                            staged.docs@ == s0.docs,
                            forall|t: Seq<u8>, jd: u32|
                                #![trigger has_posting(staged.index@, t, jd)]
                                has_posting(staged.index@, t, jd) == (has_posting(ipre, t, jd) || (
                                jd == internal && tokens_of(sv).take(j as int).contains(t))),
                        decreases toks.len() - j,
                    {
                        staged.index.add_posting(&toks[j], internal);
                        j += 1;
                        proof {
                            let done = tokens_of(sv).take(j as int);
                            assert(done =~= tokens_of(sv).take(j - 1).push(tokens_of(sv)[j - 1]));
                            assert forall|t: Seq<u8>|
                                done.contains(t) == (tokens_of(sv).take(j - 1).contains(t) || t
                                    == tokens_of(sv)[j - 1]) by {
                                lemma_contains_push(tokens_of(sv).take(j - 1), tokens_of(sv)[j - 1], t);
                            }
                        }
                    }
                    proof {
                        assert(tokens_of(sv).take(toks@.len() as int) =~= tokens_of(sv));
                        assert forall|t: Seq<u8>, jd: u32|
                            has_posting(staged.index@, t, jd) == (has_posting(idx0, t, jd) || (jd
                                == internal && rec_has_token_upto(rec, f + 1, t))) by {
                            assert(rec_has_token_upto(rec, f + 1, t) == (rec_has_token_upto(
                                rec,
                                f as int,
                                t,
                            ) || tokens_of(sv).contains(t))) by {
                                if rec_has_token_upto(rec, f + 1, t) {
                                    let i = choose|i: int|
                                        0 <= i < f + 1 && match #[trigger] rec[i].1 {
                                            ValueView::Text(s) => tokens_of(s).contains(t),
                                            ValueView::Data(_) => false,
                                        };
                                    if i < f {
                                        assert(rec_has_token_upto(rec, f as int, t));
                                    }
                                }
                                if rec_has_token_upto(rec, f as int, t) {
                                    let i = choose|i: int|
                                        0 <= i < f && match #[trigger] rec[i].1 {
                                            ValueView::Text(s) => tokens_of(s).contains(t),
                                            ValueView::Data(_) => false,
                                        };
                                    assert(0 <= i < f + 1);
                                    assert(rec_has_token_upto(rec, f + 1, t));
                                }
                                if tokens_of(sv).contains(t) {
                                    assert(rec_has_token_upto(rec, f + 1, t));
                                }
                            }
                        }
                    }
                },
                FieldValue::Data(_) => {
                    proof {
                        assert forall|t: Seq<u8>, jd: u32|
                            has_posting(staged.index@, t, jd) == (has_posting(idx0, t, jd) || (jd
                                == internal && rec_has_token_upto(rec, f + 1, t))) by {
                            assert(rec_has_token_upto(rec, f + 1, t) == rec_has_token_upto(
                                rec,
                                f as int,
                                t,
                            )) by {
                                if rec_has_token_upto(rec, f + 1, t) {
                                    let i = choose|i: int|
                                        0 <= i < f + 1 && match #[trigger] rec[i].1 {
                                            ValueView::Text(s) => tokens_of(s).contains(t),
                                            ValueView::Data(_) => false,
                                        };
                                    if i < f {
                                        assert(rec_has_token_upto(rec, f as int, t));
                                    }
                                }
                                if rec_has_token_upto(rec, f as int, t) {
                                    let i = choose|i: int|
                                        0 <= i < f && match #[trigger] rec[i].1 {
                                            ValueView::Text(s) => tokens_of(s).contains(t),
                                            ValueView::Data(_) => false,
                                        };
                                    assert(0 <= i < f + 1);
                                    assert(rec_has_token_upto(rec, f + 1, t));
                                }
                            }
                        }
                    }
                },
            }
            f += 1;
        }
        // Store the document under the freshly assigned internal id.
        staged.docs.append(doc);
        proof {
            let s2 = insert_spec(s0, external_id, rec);
            assert(staged@ =~= s2);
            // The posting relation is exact for the extended document list.
            assert forall|t: Seq<u8>, jd: u32|
                has_posting(staged.index@, t, jd) == ((jd as int) < s2.docs.len() && doc_has_token(
                    s2.docs[jd as int],
                    t,
                )) by {
                assert(rec_has_token_upto(rec, rec.len() as int, t) == doc_has_token(
                    encode_doc(d2, rec),
                    t,
                )) by {
                    if rec_has_token_upto(rec, rec.len() as int, t) {
                        let i = choose|i: int|
                            0 <= i < rec.len() && match #[trigger] rec[i].1 {
                                ValueView::Text(s) => tokens_of(s).contains(t),
                                ValueView::Data(_) => false,
                            };
                        assert(encode_doc(d2, rec)[i].1 == rec[i].1);
                        assert(doc_has_token(encode_doc(d2, rec), t));
                    }
                    if doc_has_token(encode_doc(d2, rec), t) {
                        let i = choose|i: int|
                            0 <= i < encode_doc(d2, rec).len() && match #[trigger] encode_doc(d2, rec)[i].1 {
                                ValueView::Text(s) => tokens_of(s).contains(t),
                                ValueView::Data(_) => false,
                            };
                        assert(encode_doc(d2, rec)[i].1 == rec[i].1);
                        assert(rec_has_token_upto(rec, rec.len() as int, t));
                    }
                }
                if (jd as int) < s0.docs.len() {
                    assert(s2.docs[jd as int] == s0.docs[jd as int]);
                }
                if jd == internal {
                    assert(s2.docs[jd as int] == encode_doc(d2, rec));
                }
            }
            // Semantic well-formedness of the new state.
            assert(sem_wf(staged@)) by {
                assert forall|d: int, kk: int|
                    0 <= d < s2.docs.len() && 0 <= kk < s2.docs[d].len() implies (
                s2.docs[d][kk].0 as int) < s2.fields.len() by {
                    if d < s0.docs.len() {
                        assert(s2.docs[d] == s0.docs[d]);
                        assert((s0.docs[d][kk].0 as int) < s0.fields.len());
                    } else {
                        assert(s2.docs[d] == encode_doc(d2, rec));
                        assert(s2.docs[d][kk].0 == doc@[kk].0);
                    }
                }
            }
        }
        // Commit: the staged state becomes visible atomically.
        self.committed = staged;
        Ok(internal)
    }

    /// Insert a batch of records, one transaction each, and report a
    /// result per record; one record's failure does not touch the others.
    pub fn add_documents(&mut self, documents: &Vec<(u64, Record)>) -> (r: Vec<
        Result<u32, DbError>,
    >)
        requires
            old(self).wf(),
            old(self)@.ext.len() + documents@.len() <= u32::MAX,
            old(self)@.fields.len() + total_fields(items_view(documents@)) <= u32::MAX,
        ensures
            final(self).wf(),
            final(self)@ == batch_after(old(self)@, items_view(documents@)),
            r@.len() == documents@.len(),
            forall|m: int|
                #![trigger r@[m]]
                0 <= m < documents@.len() ==> r@[m] == (if batch_after(
                    old(self)@,
                    items_view(documents@).take(m),
                ).ext.contains(items_view(documents@)[m].0) {
                    Err::<u32, DbError>(DbError::DuplicateExternalId)
                } else {
                    Ok::<u32, DbError>(
                        batch_after(old(self)@, items_view(documents@).take(m)).ext.len() as u32,
                    )
                }),
    {
        let ghost s0 = old(self)@;
        let ghost items = items_view(documents@);
        let mut results: Vec<Result<u32, DbError>> = Vec::new();
        let mut k: usize = 0;
        while k < documents.len()
            invariant
                self.wf(),
                items == items_view(documents@),
                items.len() == documents@.len(),
                s0.ext.len() + items.len() <= u32::MAX,
                s0.fields.len() + total_fields(items) <= u32::MAX,
                k <= documents@.len(),
                self@ == batch_after(s0, items.take(k as int)),
                self@.ext.len() <= s0.ext.len() + k,
                self@.fields.len() <= s0.fields.len() + total_fields(items.take(k as int)),
                results@.len() == k,
                forall|m: int|
                    #![trigger results@[m]]
                    0 <= m < k ==> results@[m] == (if batch_after(s0, items.take(m)).ext.contains(
                        items[m].0,
                    ) {
                        Err::<u32, DbError>(DbError::DuplicateExternalId)
                    } else {
                        Ok::<u32, DbError>(batch_after(s0, items.take(m)).ext.len() as u32)
                    }),
            decreases documents.len() - k,
        {
            let ghost p = batch_after(s0, items.take(k as int));
            proof {
                lemma_total_fields_take(items, k as int + 1);
                assert(items.take(k as int + 1).drop_last() =~= items.take(k as int));
                assert(items.take(k as int + 1).last() == items[k as int]);
            }
            let (ext, rec) = &documents[k];
            let res = self.add_document(*ext, rec);
            proof {
                if res is Ok {
                    lemma_dict_after_extends(p.fields, rec_names(items[k as int].1));
                }
            }
            results.push(res);
            k += 1;
        }
        proof {
            assert(items.take(items.len() as int) =~= items);
        }
        results
    }

    /// Search through a fresh read transaction: the ranked candidates for
    /// `query`, capped at `limit`, each with its internal id and record.
    pub fn search(&self, query: &Vec<u8>, limit: usize) -> (r: Vec<(u32, Record)>)
        requires
            self.wf(),
        ensures
            r@.len() <= limit,
            Seq::new(r@.len(), |k: int| r@[k].0) == take_at_most(
                ranked(self@.docs, query_tokens(query@)),
                limit as int,
            ),
            forall|k: int|
                #![trigger r@[k]]
                0 <= k < r@.len() ==> (r@[k].0 as int) < self@.docs.len() && r@[k].1@ == decode_doc(
                    self@,
                    r@[k].0 as int,
                ),
    {
        let snap = self.begin_read();
        snap.search(query, limit)
    }

    /// The document registered under `external_id`, through a fresh read
    /// transaction; absent, not an error, if the external id is unknown.
    pub fn get_document_by_external_id(&self, external_id: u64) -> (r: Option<Record>)
        requires
            self.wf(),
        ensures
            match r {
                Some(rec) => self@.ext.contains(external_id) && rec@ == decode_doc(
                    self@,
                    resolve_spec(self@.ext, external_id),
                ),
                None => !self@.ext.contains(external_id),
            },
    {
        let snap = self.begin_read();
        snap.get_document_by_external_id(external_id)
    }

    /// The document stored under `internal_id`, through a fresh read
    /// transaction; absent, not an error, if the id was never assigned.
    pub fn get_document_by_internal_id(&self, internal_id: u32) -> (r: Option<Record>)
        requires
            self.wf(),
        ensures
            match r {
                Some(rec) => (internal_id as int) < self@.docs.len() && rec@ == decode_doc(
                    self@,
                    internal_id as int,
                ),
                None => (internal_id as int) >= self@.docs.len(),
            },
    {
        let snap = self.begin_read();
        snap.get_document_by_internal_id(internal_id)
    }
}

} // verus!
