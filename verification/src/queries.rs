//! The query engine: recency listing, cursor pagination strictly below
//! a timestamp, and sanitized full-text prefix search.

use vstd::prelude::*;
use crate::models::{ClipboardEntry, ContentType, StorageError};
use crate::store::{Storage, EntryView, views, entry_key_gt, sorted_desc, uniq_ids, has_id};
use crate::sanitize::query_phrase;
use crate::text::phrase_matches;

verus! {

/// The first `limit` elements of `s`; a negative limit means no bound.
pub open spec fn clip(s: Seq<EntryView>, limit: i32) -> Seq<EntryView> {
    if limit < 0 || s.len() <= limit {
        s
    } else {
        s.take(limit as int)
    }
}

/// An entry the full-text search may report for `phrase`: it is not an
/// image entry — images stay out even when they carry text-like
/// metadata — it bears text, and the phrase matches that text.
pub open spec fn search_hit(e: EntryView, phrase: Seq<char>) -> bool {
    &&& e.content_type != ContentType::Image
    &&& e.text_content is Some
    &&& phrase_matches(e.text_content->Some_0, phrase)
}

/// The cursor predicate: strictly older than `t`.
pub open spec fn before_pred(t: int) -> spec_fn(EntryView) -> bool {
    |e: EntryView| e.created_at < t
}

/// The search predicate for a sanitized phrase.
pub open spec fn hit_pred(phrase: Seq<char>) -> spec_fn(EntryView) -> bool {
    |e: EntryView| search_hit(e, phrase)
}

impl Storage {
    /// The whole history as listings report it: newest first, binary
    /// payloads withheld.
    pub open spec fn listing(self) -> Seq<EntryView> {
        self@.map_values(|e: EntryView| e.listed())
    }

    /// What `get_entries_before` returns: the listing restricted to
    /// entries strictly older than the cursor; no cursor at all when
    /// the cursor is zero or negative.
    pub open spec fn before_spec(self, t: int, limit: i32) -> Seq<EntryView> {
        if t <= 0 {
            clip(self.listing(), limit)
        } else {
            clip(self.listing().filter(before_pred(t)), limit)
        }
    }

    /// What `search_entries` returns: the recency listing when the
    /// sanitized phrase is empty, otherwise the matching entries,
    /// newest first.
    pub open spec fn search_spec(self, q: Seq<char>, limit: i32) -> Seq<EntryView> {
        let phrase = query_phrase(q);
        if phrase.len() == 0 {
            clip(self.listing(), limit)
        } else {
            clip(self.listing().filter(hit_pred(phrase)), limit)
        }
    }

    /// The newest entries, ordered by (`created_at`, `id`) descending,
    /// at most `limit` of them, without binary payloads.
    pub fn get_recent_entries(&self, limit: i32) -> (r: Result<Vec<ClipboardEntry>, StorageError>)
        requires
            self.wf(),
        ensures
            r is Ok,
            views(r->Ok_0@) == clip(self.listing(), limit),
    {
        let n = self.entries_len();
        let cap: usize = if limit < 0 {
            n
        } else if (limit as usize) < n {
            limit as usize
        } else {
            n
        };
        let mut out: Vec<ClipboardEntry> = Vec::new();
        let mut i: usize = 0;
        while i < cap
            invariant
                i <= cap <= n,
                n == self@.len(),
                self.wf(),
                views(out@) == self.listing().subrange(0, i as int),
            decreases cap - i,
        {
            let e = self.entry_at(i);
            let le = e.to_listing();
            proof {
                assert(le@ == e@.listed());
                assert(self.listing()[i as int] == self@[i as int].listed());
            }
            let ghost prev = out@;
            proof {
                assert(views(prev) == self.listing().subrange(0, i as int));
                assert(views(prev).len() == prev.len());
                assert(prev.len() == i as int);
            }
            out.push(le);
            proof {
                assert(out@ == prev.push(le));
                assert(views(out@).len() == out@.len());
                assert forall|j: int| 0 <= j < out@.len() implies views(out@)[j] == self.listing()
                    .subrange(0, i + 1)[j] by {
                    assert(views(out@)[j] == out@[j]@);
                    if j < prev.len() {
                        assert(out@[j] == prev[j]);
                        assert(views(prev)[j] == prev[j]@);
                        assert(views(prev)[j] == self.listing().subrange(0, i as int)[j]);
                    } else {
                        assert(out@[j] == le);
                        assert(j == i);
                        assert(self.listing().subrange(0, i + 1)[j] == self.listing()[j]);
                    }
                }
                assert(views(out@) =~= self.listing().subrange(0, i + 1));
            }
            i += 1;
        }
        proof {
            assert(views(out@) =~= clip(self.listing(), limit));
        }
        Ok(out)
    }

    /// The newest entries strictly older than the cursor timestamp, in
    /// the same order as `get_recent_entries`. A cursor of zero or less
    /// means no cursor, and the call lists the newest entries outright.
    pub fn get_entries_before(&self, before_timestamp: i64, limit: i32) -> (r: Result<
        Vec<ClipboardEntry>,
        StorageError,
    >)
        requires
            self.wf(),
        ensures
            r is Ok,
            views(r->Ok_0@) == self.before_spec(before_timestamp as int, limit),
    {
        if before_timestamp <= 0 {
            return self.get_recent_entries(limit);
        }
        let n = self.entries_len();
        let mut out: Vec<ClipboardEntry> = Vec::new();
        let mut i: usize = 0;
        while i < n && (limit < 0 || out.len() < limit as usize)
            invariant
                i <= n,
                n == self@.len(),
                self.wf(),
                views(out@) == self.listing().subrange(0, i as int).filter(before_pred(before_timestamp as int)),
                limit >= 0 ==> views(out@).len() <= limit,
            decreases n - i,
        {
            let e = self.entry_at(i);
            proof {
                lemma_filter_step(self.listing(), before_pred(before_timestamp as int), i as int);
                assert(self.listing()[i as int] == self@[i as int].listed());
            }
            if e.created_at < before_timestamp {
                let le = e.to_listing();
                proof {
                    assert(le@ == e@.listed());
                    assert(before_pred(before_timestamp as int)(self.listing()[i as int]));
                }
                out.push(le);
                proof {
                    assert(views(out@) =~= self.listing().subrange(0, i + 1).filter(before_pred(before_timestamp as int)));
                }
            } else {
                proof {
                    assert(!before_pred(before_timestamp as int)(self.listing()[i as int]));
                    assert(self.listing().subrange(0, i + 1).filter(before_pred(before_timestamp as int)) == self.listing()
                        .subrange(0, i as int).filter(before_pred(before_timestamp as int)));
                }
            }
            i += 1;
        }
        proof {
            lemma_scan_done(self.listing(), before_pred(before_timestamp as int), i as int, limit, views(out@));
        }
        Ok(out)
    }

    /// Full-text prefix search over the text of non-image entries. The
    /// raw query is trimmed and stripped of wildcard stars; when
    /// nothing remains — an empty or whitespace-only query — the call
    /// behaves exactly like `get_recent_entries`.
    pub fn search_entries(&self, query: &str, limit: i32) -> (r: Result<
        Vec<ClipboardEntry>,
        StorageError,
    >)
        requires
            self.wf(),
        ensures
            r is Ok,
            views(r->Ok_0@) == self.search_spec(query@, limit),
    {
        let qchars = crate::text::to_chars(query);
        let phrase = crate::sanitize::query_phrase_chars(&qchars);
        if phrase.len() == 0 {
            return self.get_recent_entries(limit);
        }
        let n = self.entries_len();
        let mut out: Vec<ClipboardEntry> = Vec::new();
        let mut i: usize = 0;
        while i < n && (limit < 0 || out.len() < limit as usize)
            invariant
                i <= n,
                n == self@.len(),
                self.wf(),
                views(out@) == self.listing().subrange(0, i as int).filter(hit_pred(phrase@)),
                limit >= 0 ==> views(out@).len() <= limit,
            decreases n - i,
        {
            let e = self.entry_at(i);
            proof {
                lemma_filter_step(self.listing(), hit_pred(phrase@), i as int);
                assert(self.listing()[i as int] == self@[i as int].listed());
            }
            let hit = entry_matches(e, &phrase);
            proof {
                assert(search_hit(e@.listed(), phrase@) == search_hit(e@, phrase@));
            }
            if hit {
                let le = e.to_listing();
                proof {
                    assert(le@ == e@.listed());
                    assert(hit_pred(phrase@)(self.listing()[i as int]));
                }
                out.push(le);
                proof {
                    assert(views(out@) =~= self.listing().subrange(0, i + 1).filter(hit_pred(phrase@)));
                }
            } else {
                proof {
                    assert(!hit_pred(phrase@)(self.listing()[i as int]));
                    assert(self.listing().subrange(0, i + 1).filter(hit_pred(phrase@)) == self.listing()
                        .subrange(0, i as int).filter(hit_pred(phrase@)));
                }
            }
            i += 1;
        }
        proof {
            lemma_scan_done(self.listing(), hit_pred(phrase@), i as int, limit, views(out@));
        }
        Ok(out)
    }
}

/// Whether the sanitized phrase matches this entry's text; image
/// entries never match.
fn entry_matches(e: &ClipboardEntry, phrase: &Vec<char>) -> (r: bool)
    ensures
        r == search_hit(e@, phrase@),
{
    if e.content_type == ContentType::Image {
        return false;
    }
    match &e.text_content {
        Some(t) => {
            let tchars = crate::text::to_chars(t.as_str());
            crate::text::phrase_match(&tchars, phrase)
        },
        None => false,
    }
}

/// One step of a filtering scan: extending the scanned prefix by one
/// element extends its filtered image by that element exactly when the
/// element passes.
pub proof fn lemma_filter_step(s: Seq<EntryView>, pred: spec_fn(EntryView) -> bool, i: int)
    requires
        0 <= i < s.len(),
    ensures
        pred(s[i]) ==> s.subrange(0, i + 1).filter(pred) == s.subrange(0, i).filter(pred).push(
            s[i],
        ),
        !pred(s[i]) ==> s.subrange(0, i + 1).filter(pred) == s.subrange(0, i).filter(pred),
{
    reveal(Seq::filter);
    let ext = s.subrange(0, i + 1);
    assert(ext.drop_last() =~= s.subrange(0, i));
    assert(ext.last() == s[i]);
}

/// A filtering scan that stopped — at the end, or as soon as the limit
/// was reached — has produced exactly the clipped filtered listing.
pub proof fn lemma_scan_done(
    s: Seq<EntryView>,
    pred: spec_fn(EntryView) -> bool,
    i: int,
    limit: i32,
    got: Seq<EntryView>,
)
    requires
        0 <= i <= s.len(),
        got == s.subrange(0, i).filter(pred),
        limit >= 0 ==> got.len() <= limit,
        i < s.len() ==> limit >= 0 && got.len() == limit,
    ensures
        got == clip(s.filter(pred), limit),
{
    let pre = s.subrange(0, i);
    let post = s.subrange(i, s.len() as int);
    assert(s =~= pre + post);
    Seq::filter_distributes_over_add(pre, post, pred);
    if i == s.len() {
        assert(post =~= Seq::<EntryView>::empty());
        reveal(Seq::filter);
        assert(s.filter(pred) =~= got);
        assert(clip(s.filter(pred), limit) =~= got);
    } else {
        assert(s.filter(pred) =~= got + post.filter(pred));
        assert(clip(s.filter(pred), limit) =~= got);
    }
}

} // verus!
