//! The store's general laws, stated and proved once over the model:
//! id freshness, listing order, cursor semantics, delete-exactly-once,
//! promotion, blank-search fallback, the image exclusion, index
//! consistency after deletion, and retention exactness.

use vstd::prelude::*;
use crate::models::ContentType;
use crate::store::{
    Storage, EntryView, entry_key_gt, sorted_desc, uniq_ids, fresh_id, has_id, sorted_insert,
    not_id_pred, kept_pred, find_entry, touched, lemma_find_entry, lemma_filter_keeps,
    lemma_remove_is_filter, lemma_filter_all, lemma_sorted_insert_props,
};
use crate::queries::{clip, search_hit, hit_pred, before_pred};
use crate::sanitize::query_phrase;
use crate::text::{trimmed, is_space, trim_lo};

verus! {

/// Every id a well-formed store holds is positive and below the next
/// id to assign, no id is held twice, and the id an insert hands out
/// is fresh: ids are unique across the store's lifetime, because the
/// next id only ever grows and deletion never lowers it.
pub proof fn lemma_ids_positive_unique(s: Storage)
    requires
        s.wf(),
    ensures
        forall|i: int| 0 <= i < s@.len() ==> 1 <= (#[trigger] s@[i]).id < s.next_id_spec(),
        uniq_ids(s@),
        fresh_id(s@, s.next_id_spec()),
{
}

/// The listing is strictly ordered, newest first by activity time with
/// ties broken by the larger id, and a clipped listing holds at most
/// `limit` entries: what `get_recent_entries` returns is newest-first
/// and no longer than asked for.
pub proof fn lemma_recent_sorted(s: Storage, limit: i32)
    requires
        s.wf(),
    ensures
        sorted_desc(clip(s.listing(), limit)),
        limit >= 0 ==> clip(s.listing(), limit).len() <= limit,
{
    assert(sorted_desc(s.listing())) by {
        assert forall|i: int, j: int| 0 <= i < j < s.listing().len() implies entry_key_gt(
            #[trigger] s.listing()[i],
            #[trigger] s.listing()[j],
        ) by {
            assert(s.listing()[i] == s@[i].listed() && s.listing()[j] == s@[j].listed());
        }
    }
    let c = clip(s.listing(), limit);
    assert forall|i: int, j: int| 0 <= i < j < c.len() implies entry_key_gt(
        #[trigger] c[i],
        #[trigger] c[j],
    ) by {
        assert(c[i] == s.listing()[i] && c[j] == s.listing()[j]);
    }
}

/// Pagination with no cursor — zero or negative — is exactly the
/// recency listing.
pub proof fn lemma_before_zero_is_recent(s: Storage, t: int, limit: i32)
    requires
        t <= 0,
    ensures
        s.before_spec(t, limit) == clip(s.listing(), limit),
{
}

/// Pagination with a positive cursor is left-exclusive: every entry it
/// returns was last active strictly before the cursor.
pub proof fn lemma_before_strict(s: Storage, t: int, limit: i32)
    requires
        s.wf(),
        t > 0,
    ensures
        forall|i: int|
            0 <= i < s.before_spec(t, limit).len() ==> (#[trigger] s.before_spec(
                t,
                limit,
            )[i]).created_at < t,
{
    let f = s.listing().filter(before_pred(t));
    assert forall|i: int| 0 <= i < s.before_spec(t, limit).len() implies (#[trigger] s.before_spec(
        t,
        limit,
    )[i]).created_at < t by {
        assert(s.before_spec(t, limit)[i] == f[i]);
        Seq::lemma_filter_pred(s.listing(), before_pred(t), i);
    }
}

/// Deletion removes the id for good: the id is absent afterwards, so a
/// repeated delete of the same id reports `false`, and a delete of an
/// id never assigned reports `false` outright.
pub proof fn lemma_delete_exactly_once(s: Storage, id: int)
    requires
        s.wf(),
    ensures
        !has_id(s@.filter(not_id_pred(id)), id),
        !has_id(s@, id) ==> s@.filter(not_id_pred(id)) == s@,
{
    let f = s@.filter(not_id_pred(id));
    assert forall|i: int| 0 <= i < f.len() implies (#[trigger] f[i]).id != id by {
        Seq::lemma_filter_pred(s@, not_id_pred(id), i);
    }
    if !has_id(s@, id) {
        assert forall|i: int| 0 <= i < s@.len() implies not_id_pred(id)(#[trigger] s@[i]) by {
            if s@[i].id == id {
                assert(has_id(s@, id));
            }
        }
        lemma_filter_all(s@, not_id_pred(id));
    }
}

/// Promotion at an instant later than every activity time: the touched
/// entry's copy count grows by exactly one, its activity time advances
/// strictly, its original copy time stays, and it moves to the front
/// of the history.
pub proof fn lemma_touch_promotes(s: Storage, id: int, now: int)
    requires
        s.wf(),
        has_id(s@, id),
        forall|i: int| 0 <= i < s@.len() ==> (#[trigger] s@[i]).created_at < now,
        find_entry(s@, id)->Some_0.copy_count < i64::MAX,
    ensures
        ({
            let e0 = find_entry(s@, id)->Some_0;
            let e1 = touched(e0, now);
            let after = sorted_insert(s@.filter(not_id_pred(id)), e1);
            &&& e1.id == id
            &&& e1.copy_count == e0.copy_count + 1
            &&& e1.created_at == now > e0.created_at
            &&& e1.first_copied_at == e0.first_copied_at
            &&& after.len() == s@.len()
            &&& after[0] == e1
        }),
{
    lemma_find_entry(s@, id);
    let e0 = find_entry(s@, id)->Some_0;
    let k = choose|k: int| 0 <= k < s@.len() && s@[k] == e0;
    assert(e0.wf());
    assert(e0.created_at < now);
    let e1 = touched(e0, now);
    let f = s@.filter(not_id_pred(id));
    let w = choose|w: int| 0 <= w < s@.len() && s@[w].id == id;
    assert(find_entry(s@, id) == Some(s@[w]));
    lemma_remove_is_filter(s@, w, id);
    assert(f == s@.remove(w));
    assert(f.len() == s@.len() - 1);
    lemma_filter_keeps(s@, not_id_pred(id));
    assert(fresh_id(f, e1.id)) by {
        assert forall|i: int| 0 <= i < f.len() implies (#[trigger] f[i]).id != e1.id by {
            Seq::lemma_filter_pred(s@, not_id_pred(id), i);
        }
    }
    lemma_sorted_insert_props(f, e1);
    let after = sorted_insert(f, e1);
    if f.len() > 0 {
        assert(f[0] == s@.remove(w)[0]);
        assert(f[0].created_at < now);
        assert(!entry_key_gt(f[0], e1));
        assert(after == seq![e1] + f);
        assert(after[0] == e1);
    } else {
        assert(after =~= seq![e1]);
    }
}

/// The head of the history heads the recency listing too: an entry at
/// the front of the store — as a fresh insert or a promotion leaves it
/// — is the first entry `get_recent_entries` reports.
pub proof fn lemma_listing_front(s: Storage, limit: i32)
    requires
        s@.len() > 0,
        limit != 0,
    ensures
        clip(s.listing(), limit).len() > 0,
        clip(s.listing(), limit)[0] == s@[0].listed(),
        clip(s.listing(), limit)[0].id == s@[0].id,
{
    assert(s.listing()[0] == s@[0].listed());
    assert(clip(s.listing(), limit)[0] == s.listing()[0]);
}

/// A blank query — empty once trimmed and stripped of wildcard stars —
/// searches as the recency listing does.
pub proof fn lemma_blank_search_is_recent(s: Storage, q: Seq<char>, limit: i32)
    requires
        query_phrase(q).len() == 0,
    ensures
        s.search_spec(q, limit) == clip(s.listing(), limit),
{
}

/// A query of nothing but whitespace has a blank phrase, so searching
/// it falls back to the recency listing.
pub proof fn lemma_whitespace_query_blank(q: Seq<char>)
    requires
        forall|i: int| 0 <= i < q.len() ==> is_space(#[trigger] q[i]),
    ensures
        query_phrase(q).len() == 0,
{
    crate::text::lemma_trim_lo(q);
    if trim_lo(q) < q.len() {
        assert(is_space(q[trim_lo(q)]));
        assert(false);
    }
    crate::text::lemma_trim_hi(q);
    reveal(Seq::filter);
    if trimmed(q).len() != 0 {
        assert(crate::text::trim_hi(q) > trim_lo(q));
        assert(false);
    }
    assert(trimmed(q).len() == 0);
    assert(query_phrase(q) == trimmed(q).filter(|c: char| c != '*'));
    assert(query_phrase(q).len() == 0);
}

/// Search never reports an image entry, even one carrying text-like
/// metadata, and everything it reports matches the sanitized phrase.
pub proof fn lemma_search_excludes_images(s: Storage, q: Seq<char>, limit: i32)
    requires
        s.wf(),
        query_phrase(q).len() > 0,
    ensures
        forall|i: int|
            0 <= i < s.search_spec(q, limit).len() ==> (#[trigger] s.search_spec(
                q,
                limit,
            )[i]).content_type != ContentType::Image && search_hit(
                s.search_spec(q, limit)[i],
                query_phrase(q),
            ),
{
    let phrase = query_phrase(q);
    let f = s.listing().filter(hit_pred(phrase));
    assert forall|i: int| 0 <= i < s.search_spec(q, limit).len() implies (
    #[trigger] s.search_spec(q, limit)[i]).content_type != ContentType::Image && search_hit(
        s.search_spec(q, limit)[i],
        phrase,
    ) by {
        assert(s.search_spec(q, limit)[i] == f[i]);
        Seq::lemma_filter_pred(s.listing(), hit_pred(phrase), i);
    }
}

/// After an entry is deleted, no search reports it any more: the
/// search index stays consistent with the primary data, so results
/// are always drawn from entries the store still holds.
pub proof fn lemma_delete_purges_search(s: Storage, s2: Storage, id: int, q: Seq<char>, limit: i32)
    requires
        s.wf(),
        s2@ == s@.filter(not_id_pred(id)),
    ensures
        forall|i: int|
            0 <= i < s2.search_spec(q, limit).len() ==> (#[trigger] s2.search_spec(
                q,
                limit,
            )[i]).id != id,
{
    let phrase = query_phrase(q);
    assert forall|w: int| 0 <= w < s2@.len() implies (#[trigger] s2@[w]).id != id by {
        Seq::lemma_filter_pred(s@, not_id_pred(id), w);
    }
    let out = s2.search_spec(q, limit);
    assert forall|i: int| 0 <= i < out.len() implies (#[trigger] out[i]).id != id by {
        if phrase.len() == 0 {
            assert(out[i] == s2.listing()[i]);
            assert(s2.listing()[i] == s2@[i].listed());
        } else {
            let f = s2.listing().filter(hit_pred(phrase));
            assert(out[i] == f[i]);
            lemma_filter_keeps(s2.listing(), hit_pred(phrase));
            assert(f.contains(f[i]));
            assert(s2.listing().contains(f[i]));
            let w = choose|w: int| 0 <= w < s2.listing().len() && s2.listing()[w] == f[i];
            assert(s2.listing()[w] == s2@[w].listed());
        }
    }
}

/// Retention is exact: an entry survives the cleanup at a cutoff if
/// and only if its activity time is at or past the cutoff, and a
/// second cleanup at the same cutoff removes nothing.
pub proof fn lemma_cleanup_exact(s: Storage, cutoff: int)
    requires
        s.wf(),
    ensures
        forall|i: int|
            0 <= i < s@.filter(kept_pred(cutoff)).len() ==> (#[trigger] s@.filter(
                kept_pred(cutoff),
            )[i]).created_at >= cutoff,
        forall|i: int|
            0 <= i < s@.len() && (#[trigger] s@[i]).created_at >= cutoff ==> s@.filter(
                kept_pred(cutoff),
            ).contains(s@[i]),
        s@.filter(kept_pred(cutoff)).filter(kept_pred(cutoff)) == s@.filter(kept_pred(cutoff)),
{
    let f = s@.filter(kept_pred(cutoff));
    assert forall|i: int| 0 <= i < f.len() implies (#[trigger] f[i]).created_at >= cutoff by {
        Seq::lemma_filter_pred(s@, kept_pred(cutoff), i);
    }
    assert forall|i: int|
        0 <= i < s@.len() && (#[trigger] s@[i]).created_at >= cutoff implies f.contains(
        s@[i],
    ) by {
        Seq::lemma_filter_contains(s@, kept_pred(cutoff), i);
    }
    lemma_filter_all(f, kept_pred(cutoff));
}

} // verus!
