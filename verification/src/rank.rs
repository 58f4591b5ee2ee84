//! The ranking model of search.
//!
//! A query is tokenized like a field value and deduplicated.  A document's
//! score against the query is the number of distinct query tokens that
//! some token of its textual field values starts with.  Candidates are the
//! documents with a positive score, ordered by score descending and by
//! internal id ascending within a score, and the result is capped at the
//! caller's limit.

use vstd::prelude::*;
use crate::tokenize::{is_prefix_of, tokens_of};
use crate::value::{DocView, ValueView};

verus! {

/// Membership in a pushed sequence.
pub proof fn lemma_contains_push<T>(s: Seq<T>, x: T, t: T)
    ensures
        s.push(x).contains(t) == (s.contains(t) || t == x),
{
    if s.contains(t) {
        let i = choose|i: int| 0 <= i < s.len() && s[i] == t;
        assert(s.push(x)[i] == t);
    }
    if t == x {
        assert(s.push(x)[s.len() as int] == t);
    }
    if s.push(x).contains(t) && t != x {
        let i = choose|i: int| 0 <= i < s.push(x).len() && s.push(x)[i] == t;
        if i < s.len() {
            assert(s[i] == t);
        }
    }
}

/// Membership in a concatenation.
pub proof fn lemma_contains_add<T>(a: Seq<T>, b: Seq<T>, t: T)
    ensures
        (a + b).contains(t) == (a.contains(t) || b.contains(t)),
{
    if a.contains(t) {
        let i = choose|i: int| 0 <= i < a.len() && a[i] == t;
        assert((a + b)[i] == t);
    }
    if b.contains(t) {
        let i = choose|i: int| 0 <= i < b.len() && b[i] == t;
        assert((a + b)[a.len() + i] == t);
    }
    if (a + b).contains(t) {
        let i = choose|i: int| 0 <= i < (a + b).len() && (a + b)[i] == t;
        if i < a.len() {
            assert(a[i] == t);
        } else {
            assert(b[i - a.len()] == t);
        }
    }
}

/// `ts` with every repeated element removed, keeping first occurrences in
/// order.
pub open spec fn dedup(ts: Seq<Seq<u8>>) -> Seq<Seq<u8>>
    decreases ts.len(),
{
    if ts.len() == 0 {
        Seq::empty()
    } else {
        let p = dedup(ts.drop_last());
        if ts.drop_last().contains(ts.last()) {
            p
        } else {
            p.push(ts.last())
        }
    }
}

/// Deduplication keeps exactly the elements of the original.
pub proof fn lemma_dedup_contains(ts: Seq<Seq<u8>>, t: Seq<u8>)
    ensures
        dedup(ts).contains(t) == ts.contains(t),
    decreases ts.len(),
{
    if ts.len() > 0 {
        lemma_dedup_contains(ts.drop_last(), t);
        assert(ts =~= ts.drop_last().push(ts.last()));
        lemma_contains_push(ts.drop_last(), ts.last(), t);
        if !ts.drop_last().contains(ts.last()) {
            lemma_contains_push(dedup(ts.drop_last()), ts.last(), t);
        }
    }
}

/// The tokens a query string is resolved to: its tokens, deduplicated.
pub open spec fn query_tokens(q: Seq<u8>) -> Seq<Seq<u8>> {
    dedup(tokens_of(q))
}

/// Some textual field value of `doc` has token `t`.
pub open spec fn doc_has_token(doc: DocView, t: Seq<u8>) -> bool {
    exists|i: int|
        0 <= i < doc.len() && match #[trigger] doc[i].1 {
            ValueView::Text(s) => tokens_of(s).contains(t),
            ValueView::Data(_) => false,
        }
}

/// Some token of a textual field value of `doc` starts with `q`.
pub open spec fn doc_matches(doc: DocView, q: Seq<u8>) -> bool {
    exists|t: Seq<u8>| doc_has_token(doc, t) && is_prefix_of(q, t)
}

/// How many of the query tokens `qts` the document matches.
pub open spec fn match_count(doc: DocView, qts: Seq<Seq<u8>>) -> nat
    decreases qts.len(),
{
    if qts.len() == 0 {
        0
    } else {
        match_count(doc, qts.drop_last()) + if doc_matches(doc, qts.last()) {
            1nat
        } else {
            0nat
        }
    }
}

/// A document matches at most all the query tokens.
pub proof fn lemma_match_count_le(doc: DocView, qts: Seq<Seq<u8>>)
    ensures
        match_count(doc, qts) <= qts.len(),
    decreases qts.len(),
{
    if qts.len() > 0 {
        lemma_match_count_le(doc, qts.drop_last());
    }
}

/// A positive match count means some query token is matched, and the other
/// way round.
pub proof fn lemma_match_count_pos(doc: DocView, qts: Seq<Seq<u8>>)
    ensures
        (match_count(doc, qts) > 0) == (exists|k: int| 0 <= k < qts.len() && doc_matches(doc, qts[k])),
    decreases qts.len(),
{
    if qts.len() > 0 {
        lemma_match_count_pos(doc, qts.drop_last());
        if match_count(doc, qts) > 0 {
            if doc_matches(doc, qts.last()) {
                assert(0 <= qts.len() - 1 < qts.len() && doc_matches(doc, qts[qts.len() - 1]));
            } else {
                let k = choose|k: int|
                    0 <= k < qts.drop_last().len() && doc_matches(doc, qts.drop_last()[k]);
                assert(qts[k] == qts.drop_last()[k]);
                assert(0 <= k < qts.len() && doc_matches(doc, qts[k]));
            }
        }
        if exists|k: int| 0 <= k < qts.len() && doc_matches(doc, qts[k]) {
            let k = choose|k: int| 0 <= k < qts.len() && doc_matches(doc, qts[k]);
            if k < qts.len() - 1 {
                assert(qts.drop_last()[k] == qts[k]);
                assert(0 <= k < qts.drop_last().len() && doc_matches(doc, qts.drop_last()[k]));
            }
        }
    }
}

/// The ids below `upto` whose match count is exactly `lvl`, ascending.
pub open spec fn ids_at_level(docs: Seq<DocView>, qts: Seq<Seq<u8>>, lvl: nat, upto: int) -> Seq<
    u32,
>
    decreases upto,
{
    if upto <= 0 {
        Seq::empty()
    } else {
        let p = ids_at_level(docs, qts, lvl, upto - 1);
        if match_count(docs[upto - 1], qts) == lvl {
            p.push((upto - 1) as u32)
        } else {
            p
        }
    }
}

/// The candidates with match count between 1 and `lvl`, best level first,
/// ids ascending within a level.
pub open spec fn ranked_from(docs: Seq<DocView>, qts: Seq<Seq<u8>>, lvl: nat) -> Seq<u32>
    decreases lvl,
{
    if lvl == 0 {
        Seq::empty()
    } else {
        ids_at_level(docs, qts, lvl, docs.len() as int) + ranked_from(docs, qts, (lvl - 1) as nat)
    }
}

/// The full ranked candidate list of a query.
pub open spec fn ranked(docs: Seq<DocView>, qts: Seq<Seq<u8>>) -> Seq<u32> {
    ranked_from(docs, qts, qts.len())
}

/// The first `k` elements of `s`, or all of `s` if it is shorter.
pub open spec fn take_at_most(s: Seq<u32>, k: int) -> Seq<u32> {
    if k < 0 {
        Seq::empty()
    } else if k < s.len() {
        s.take(k)
    } else {
        s
    }
}

/// Membership in one ranking level.
pub proof fn lemma_ids_at_level_contains(
    docs: Seq<DocView>,
    qts: Seq<Seq<u8>>,
    lvl: nat,
    upto: int,
    id: u32,
)
    requires
        0 <= upto <= docs.len(),
        docs.len() <= u32::MAX,
    ensures
        ids_at_level(docs, qts, lvl, upto).contains(id) == ((id as int) < upto && match_count(
            docs[id as int],
            qts,
        ) == lvl),
    decreases upto,
{
    if upto > 0 {
        lemma_ids_at_level_contains(docs, qts, lvl, upto - 1, id);
        let p = ids_at_level(docs, qts, lvl, upto - 1);
        if match_count(docs[upto - 1], qts) == lvl {
            lemma_contains_push(p, (upto - 1) as u32, id);
        }
    }
}

/// Membership in the ranked candidate list, down to level 1.
pub proof fn lemma_ranked_from_contains(docs: Seq<DocView>, qts: Seq<Seq<u8>>, lvl: nat, id: u32)
    requires
        docs.len() <= u32::MAX,
    ensures
        ranked_from(docs, qts, lvl).contains(id) == ((id as int) < docs.len() && 1 <= match_count(
            docs[id as int],
            qts,
        ) <= lvl),
    decreases lvl,
{
    if lvl > 0 {
        lemma_ranked_from_contains(docs, qts, (lvl - 1) as nat, id);
        lemma_ids_at_level_contains(docs, qts, lvl, docs.len() as int, id);
        lemma_contains_add(
            ids_at_level(docs, qts, lvl, docs.len() as int),
            ranked_from(docs, qts, (lvl - 1) as nat),
            id,
        );
    }
}

/// A document stands in the ranked list exactly when it matches some query
/// token.
pub proof fn lemma_ranked_contains(docs: Seq<DocView>, qts: Seq<Seq<u8>>, id: u32)
    requires
        docs.len() <= u32::MAX,
    ensures
        ranked(docs, qts).contains(id) == ((id as int) < docs.len() && match_count(
            docs[id as int],
            qts,
        ) >= 1),
{
    lemma_ranked_from_contains(docs, qts, qts.len(), id);
    if (id as int) < docs.len() {
        lemma_match_count_le(docs[id as int], qts);
    }
}

/// One ranking level lists ids in ascending order, each below `upto` and
/// with match count exactly `lvl`.
pub proof fn lemma_ids_at_level_ordered(docs: Seq<DocView>, qts: Seq<Seq<u8>>, lvl: nat, upto: int)
    requires
        0 <= upto <= docs.len(),
        docs.len() <= u32::MAX,
    ensures
        forall|i: int|
            0 <= i < ids_at_level(docs, qts, lvl, upto).len() ==> (#[trigger] ids_at_level(
                docs,
                qts,
                lvl,
                upto,
            )[i] as int) < upto && match_count(docs[ids_at_level(docs, qts, lvl, upto)[i] as int], qts)
                == lvl,
        forall|i: int, j: int|
            0 <= i < j < ids_at_level(docs, qts, lvl, upto).len() ==> ids_at_level(
                docs,
                qts,
                lvl,
                upto,
            )[i] < ids_at_level(docs, qts, lvl, upto)[j],
    decreases upto,
{
    if upto > 0 {
        lemma_ids_at_level_ordered(docs, qts, lvl, upto - 1);
        let p = ids_at_level(docs, qts, lvl, upto - 1);
        let cur = ids_at_level(docs, qts, lvl, upto);
        if match_count(docs[upto - 1], qts) == lvl {
            assert(cur == p.push((upto - 1) as u32));
            assert forall|i: int| 0 <= i < cur.len() implies (#[trigger] cur[i] as int) < upto
                && match_count(docs[cur[i] as int], qts) == lvl by {
                if i < p.len() {
                    assert(cur[i] == p[i]);
                } else {
                    assert(cur[i] == (upto - 1) as u32);
                }
            }
            assert forall|i: int, j: int| 0 <= i < j < cur.len() implies cur[i] < cur[j] by {
                if j < p.len() {
                    assert(cur[i] == p[i] && cur[j] == p[j]);
                } else {
                    assert(cur[i] == p[i]);
                    assert(cur[j] == (upto - 1) as u32);
                    assert((p[i] as int) < upto - 1);
                }
            }
        } else {
            assert forall|i: int| 0 <= i < cur.len() implies (#[trigger] cur[i] as int) < upto
                && match_count(docs[cur[i] as int], qts) == lvl by {
                assert(cur[i] == p[i]);
            }
        }
    }
}

/// The ranked candidates come best level first and, inside one level, in
/// ascending id order: match count descending, ties by ascending id.
pub proof fn lemma_ranked_from_ordered(docs: Seq<DocView>, qts: Seq<Seq<u8>>, lvl: nat)
    requires
        docs.len() <= u32::MAX,
    ensures
        forall|i: int|
            0 <= i < ranked_from(docs, qts, lvl).len() ==> (#[trigger] ranked_from(
                docs,
                qts,
                lvl,
            )[i] as int) < docs.len() && 1 <= match_count(
                docs[ranked_from(docs, qts, lvl)[i] as int],
                qts,
            ) <= lvl,
        forall|i: int, j: int|
            0 <= i < j < ranked_from(docs, qts, lvl).len() ==> match_count(
                docs[ranked_from(docs, qts, lvl)[i] as int],
                qts,
            ) > match_count(docs[ranked_from(docs, qts, lvl)[j] as int], qts) || (match_count(
                docs[ranked_from(docs, qts, lvl)[i] as int],
                qts,
            ) == match_count(docs[ranked_from(docs, qts, lvl)[j] as int], qts) && ranked_from(
                docs,
                qts,
                lvl,
            )[i] < ranked_from(docs, qts, lvl)[j]),
    decreases lvl,
{
    if lvl > 0 {
        lemma_ranked_from_ordered(docs, qts, (lvl - 1) as nat);
        lemma_ids_at_level_ordered(docs, qts, lvl, docs.len() as int);
        let a = ids_at_level(docs, qts, lvl, docs.len() as int);
        let b = ranked_from(docs, qts, (lvl - 1) as nat);
        let r = ranked_from(docs, qts, lvl);
        assert(r == a + b);
        assert forall|i: int| 0 <= i < r.len() implies (#[trigger] r[i] as int) < docs.len() && 1
            <= match_count(docs[r[i] as int], qts) <= lvl by {
            if i < a.len() {
                assert(r[i] == a[i]);
            } else {
                assert(r[i] == b[i - a.len()]);
            }
        }
        assert forall|i: int, j: int| 0 <= i < j < r.len() implies match_count(
            docs[r[i] as int],
            qts,
        ) > match_count(docs[r[j] as int], qts) || (match_count(docs[r[i] as int], qts)
            == match_count(docs[r[j] as int], qts) && r[i] < r[j]) by {
            if j < a.len() {
                assert(r[i] == a[i] && r[j] == a[j]);
            } else if i < a.len() {
                assert(r[i] == a[i] && r[j] == b[j - a.len()]);
                assert(match_count(docs[r[i] as int], qts) == lvl);
                assert(match_count(docs[r[j] as int], qts) <= lvl - 1);
            } else {
                assert(r[i] == b[i - a.len()] && r[j] == b[j - a.len()]);
            }
        }
    }
}

/// Whatever the cap keeps was a ranked candidate.
pub proof fn lemma_take_at_most_contains(s: Seq<u32>, k: int, id: u32)
    ensures
        take_at_most(s, k).contains(id) ==> s.contains(id),
{
    if 0 <= k < s.len() && s.take(k).contains(id) {
        let i = choose|i: int| 0 <= i < s.take(k).len() && s.take(k)[i] == id;
        assert(s[i] == id);
        assert(s.contains(id));
    }
}

} // verus!
