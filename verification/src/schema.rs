//! The schema manager's computable rules: the heuristic
//! timestamp-unit normalization, the backfill of columns an older
//! store lacked, and the full-text-index consistency check. They are
//! applied to every persisted row when a store is opened.

use vstd::prelude::*;
use crate::models::{ClipboardEntry, ContentType};
use crate::store::EntryView;

verus! {

/// A timestamp brought to millisecond granularity: any positive value
/// below ten billion is taken for legacy second granularity and
/// multiplied by a thousand; anything else is left alone. The
/// detection is heuristic and one-way — a genuine millisecond value
/// from before that magnitude would be scaled wrongly — and is kept
/// for compatibility, not extended.
pub open spec fn normalized_ts(t: int) -> int {
    if 0 < t < 10_000_000_000 {
        t * 1000
    } else {
        t
    }
}

/// Bring a stored timestamp to millisecond granularity.
pub fn normalize_timestamp(t: i64) -> (r: i64)
    ensures
        r as int == normalized_ts(t as int),
{
    if t > 0 && t < 10_000_000_000 {
        t * 1000
    } else {
        t
    }
}

/// Whether the full-text index must be rebuilt: its row count
/// disagrees with the count of text-bearing rows in the main table,
/// the sign of a partial or interrupted earlier run.
pub fn needs_fts_rebuild(fts_rows: i64, text_rows: i64) -> (r: bool)
    ensures
        r == (fts_rows != text_rows),
{
    fts_rows != text_rows
}

/// The normalization a persisted row passes through at store-open:
/// timestamps to milliseconds, a missing (zero) first-copy time
/// backfilled from the creation time and clamped to never exceed it,
/// and a copy count of at least one.
///
/// The backfill runs on every open, not only when the first-copy
/// column is first added: a zero first-copy time is always read as
/// "unset", which also repairs rows left behind by an interrupted
/// earlier migration. Zero is the column's own "never set" default,
/// so no genuine timestamp is lost.
pub open spec fn normalized_row(e: EntryView) -> EntryView {
    let created = normalized_ts(e.created_at);
    let first = normalized_ts(
        if e.first_copied_at == 0 {
            e.created_at
        } else {
            e.first_copied_at
        },
    );
    EntryView {
        id: e.id,
        content_type: e.content_type,
        text_content: e.text_content,
        image_data: e.image_data,
        source_app: e.source_app,
        created_at: created,
        copy_count: if e.copy_count < 1 {
            1
        } else {
            e.copy_count
        },
        first_copied_at: if first <= created {
            first
        } else {
            created
        },
    }
}

/// Whether a persisted row can be brought to a well-formed entry: a
/// positive id with room for a successor, non-negative timestamps,
/// exactly one payload, and a binary payload only under the image
/// content type.
pub open spec fn row_loadable(e: EntryView) -> bool {
    &&& 1 <= e.id < i64::MAX
    &&& 0 <= e.created_at
    &&& 0 <= e.first_copied_at
    &&& (e.text_content is Some <==> e.image_data is None)
    &&& (e.image_data is Some ==> e.content_type == ContentType::Image)
}

/// Apply the store-open normalization to one persisted row.
pub fn normalize_row(e: ClipboardEntry) -> (r: ClipboardEntry)
    ensures
        r@ == normalized_row(e@),
{
    let created = normalize_timestamp(e.created_at);
    let base = if e.first_copied_at == 0 {
        e.created_at
    } else {
        e.first_copied_at
    };
    let f = normalize_timestamp(base);
    ClipboardEntry {
        id: e.id,
        content_type: e.content_type,
        text_content: e.text_content,
        image_data: e.image_data,
        source_app: e.source_app,
        created_at: created,
        copy_count: if e.copy_count < 1 {
            1
        } else {
            e.copy_count
        },
        first_copied_at: if f <= created {
            f
        } else {
            created
        },
    }
}

/// Normalization turns every loadable row into a well-formed entry,
/// keeping its id.
pub proof fn lemma_normalized_row_wf(e: EntryView)
    requires
        row_loadable(e),
    ensures
        normalized_row(e).wf(),
        normalized_row(e).id == e.id,
{
}

} // verus!
