//! The store's laws: properties relating several operations, stated over
//! the semantic model and proved once and for all.

use vstd::prelude::*;
use crate::db::{
    decode_doc, encode_doc, insert_spec, name_id, rec_names, resolve_spec, sem_wf, StateView,
};
use crate::fields::{dict_after, lemma_dict_after_contains, lemma_dict_after_extends};
use crate::rank::{
    doc_matches, lemma_dedup_contains, lemma_match_count_pos, lemma_ranked_contains,
    lemma_take_at_most_contains, match_count, query_tokens, ranked, take_at_most,
};
use crate::tokenize::tokens_of;
use crate::value::RecView;

verus! {

/// Uniqueness: in a well-formed state the registered external ids are
/// pairwise distinct, so each maps to at most one internal id.
pub proof fn lemma_external_ids_distinct(s: StateView)
    requires
        sem_wf(s),
    ensures
        forall|i: int, j: int| 0 <= i < j < s.ext.len() ==> s.ext[i] != s.ext[j],
{
}

/// Round-trip: a record inserted under a fresh external id is returned
/// intact by a lookup of that external id on the resulting state.
pub proof fn lemma_round_trip(s: StateView, external: u64, rec: RecView)
    requires
        sem_wf(s),
        !s.ext.contains(external),
        s.fields.len() + rec.len() <= u32::MAX,
    ensures
        insert_spec(s, external, rec).ext.contains(external),
        decode_doc(
            insert_spec(s, external, rec),
            resolve_spec(insert_spec(s, external, rec).ext, external),
        ) == rec,
{
    let s2 = insert_spec(s, external, rec);
    let d2 = dict_after(s.fields, rec_names(rec));
    lemma_dict_after_extends(s.fields, rec_names(rec));
    // The external id stands at the end of the extended registration list.
    let at = s.ext.len() as int;
    assert(s2.ext[at] == external);
    assert(s2.ext.contains(external));
    let ri = resolve_spec(s2.ext, external);
    assert(0 <= ri < s2.ext.len() && s2.ext[ri] == external);
    if ri < at {
        assert(s.ext[ri] == external);
        assert(s.ext.contains(external));
    }
    assert(ri == at);
    // The stored document decodes field by field to the inserted record.
    assert(s2.docs[ri] == encode_doc(d2, rec));
    assert forall|k: int| 0 <= k < rec.len() implies decode_doc(s2, ri)[k] == rec[k] by {
        lemma_dict_after_contains(s.fields, rec_names(rec), k);
        assert(d2.contains(rec[k].0));
        let ni = name_id(d2, rec[k].0);
        assert(0 <= ni < d2.len() && d2[ni] == rec[k].0);
        assert(s2.docs[ri][k].0 == ni as u32);
        assert(s2.fields[s2.docs[ri][k].0 as int] == rec[k].0);
    }
    assert(decode_doc(s2, ri) =~= rec);
}

/// Search completeness: a document some token of which starts with a
/// token of the query stands among the returned candidates whenever the
/// limit admits the whole candidate list.
pub proof fn lemma_search_complete(s: StateView, q: Seq<u8>, limit: int, id: u32)
    requires
        sem_wf(s),
        (id as int) < s.docs.len(),
        exists|k: int|
            0 <= k < tokens_of(q).len() && doc_matches(
                s.docs[id as int],
                #[trigger] tokens_of(q)[k],
            ),
        ranked(s.docs, query_tokens(q)).len() <= limit,
    ensures
        take_at_most(ranked(s.docs, query_tokens(q)), limit).contains(id),
{
    let qts = query_tokens(q);
    let k = choose|k: int|
        0 <= k < tokens_of(q).len() && doc_matches(s.docs[id as int], #[trigger] tokens_of(q)[k]);
    assert(tokens_of(q).contains(tokens_of(q)[k]));
    lemma_dedup_contains(tokens_of(q), tokens_of(q)[k]);
    let m = choose|m: int| 0 <= m < qts.len() && qts[m] == tokens_of(q)[k];
    assert(doc_matches(s.docs[id as int], qts[m]));
    lemma_match_count_pos(s.docs[id as int], qts);
    lemma_ranked_contains(s.docs, qts, id);
    assert(ranked(s.docs, qts).contains(id));
}

/// Search soundness: a document no token of which starts with any token
/// of the query never appears in the result, whatever the limit.
pub proof fn lemma_search_sound(s: StateView, q: Seq<u8>, limit: int, id: u32)
    requires
        sem_wf(s),
        forall|k: int|
            0 <= k < tokens_of(q).len() ==> !doc_matches(
                s.docs[id as int],
                #[trigger] tokens_of(q)[k],
            ),
    ensures
        !take_at_most(ranked(s.docs, query_tokens(q)), limit).contains(id),
{
    let qts = query_tokens(q);
    lemma_ranked_contains(s.docs, qts, id);
    if (id as int) < s.docs.len() && match_count(s.docs[id as int], qts) > 0 {
        lemma_match_count_pos(s.docs[id as int], qts);
        let m = choose|m: int| 0 <= m < qts.len() && doc_matches(s.docs[id as int], qts[m]);
        assert(qts.contains(qts[m]));
        lemma_dedup_contains(tokens_of(q), qts[m]);
        let kk = choose|kk: int| 0 <= kk < tokens_of(q).len() && tokens_of(q)[kk] == qts[m];
        assert(!doc_matches(s.docs[id as int], tokens_of(q)[kk]));
        assert(false);
    }
    lemma_take_at_most_contains(ranked(s.docs, qts), limit, id);
}

/// Ranking order: the search result lists its candidates by match count
/// descending and, within equal counts, by ascending internal id.
pub proof fn lemma_search_ordered(s: StateView, q: Seq<u8>, limit: int, i: int, j: int)
    requires
        sem_wf(s),
        0 <= i < j < take_at_most(ranked(s.docs, query_tokens(q)), limit).len(),
    ensures
        ({
            let r = take_at_most(ranked(s.docs, query_tokens(q)), limit);
            let qts = query_tokens(q);
            (r[i] as int) < s.docs.len() && (r[j] as int) < s.docs.len() && (match_count(
                s.docs[r[i] as int],
                qts,
            ) > match_count(s.docs[r[j] as int], qts) || (match_count(s.docs[r[i] as int], qts)
                == match_count(s.docs[r[j] as int], qts) && r[i] < r[j]))
        }),
{
    let qts = query_tokens(q);
    let full = ranked(s.docs, qts);
    let r = take_at_most(full, limit);
    crate::rank::lemma_ranked_from_ordered(s.docs, qts, qts.len());
    assert(r[i] == full[i]);
    assert(r[j] == full[j]);
}

/// No dangling postings: a well-formed state's index never references an
/// internal id for which no document exists.
pub proof fn lemma_no_dangling_postings(s: &crate::db::State, t: Seq<u8>, id: u32)
    requires
        s.wf(),
        crate::index::has_posting(s.index@, t, id),
    ensures
        (id as int) < s@.docs.len(),
{
}

/// Every posting is backed by the document it names: the token stands in
/// the tokenization of one of that document's textual field values.
pub proof fn lemma_postings_are_exact(s: &crate::db::State, t: Seq<u8>, id: u32)
    requires
        s.wf(),
        (id as int) < s@.docs.len(),
    ensures
        crate::index::has_posting(s.index@, t, id) == crate::rank::doc_has_token(
            s@.docs[id as int],
            t,
        ),
{
}

/// Limit bound: the capped candidate list never exceeds the cap.
pub proof fn lemma_limit_bound(s: Seq<u32>, limit: int)
    requires
        limit >= 0,
    ensures
        take_at_most(s, limit).len() <= limit,
{
}

} // verus!
