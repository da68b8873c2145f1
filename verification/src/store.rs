//! The entry store: a single handle that owns the clipboard history,
//! ordered newest-first, with fresh monotonically assigned ids.
//!
//! The store's state is modeled as a sequence of entry views sorted
//! strictly descending by (`created_at`, `id`), which gives every
//! listing a total order and makes cursor pagination unambiguous.

use vstd::prelude::*;
use crate::models::{ClipboardEntry, ContentType, StorageError};

verus! {

/// The mathematical model of one stored entry.
pub struct EntryView {
    pub id: int,
    pub content_type: ContentType,
    pub text_content: Option<Seq<char>>,
    pub image_data: Option<Seq<u8>>,
    pub source_app: Option<Seq<char>>,
    pub created_at: int,
    pub copy_count: int,
    pub first_copied_at: int,
}

impl View for ClipboardEntry {
    type V = EntryView;

    open spec fn view(&self) -> EntryView {
        EntryView {
            id: self.id as int,
            content_type: self.content_type,
            text_content: match self.text_content {
                Some(t) => Some(t@),
                None => None,
            },
            image_data: match self.image_data {
                Some(b) => Some(b@),
                None => None,
            },
            source_app: match self.source_app {
                Some(a) => Some(a@),
                None => None,
            },
            created_at: self.created_at as int,
            copy_count: self.copy_count as int,
            first_copied_at: self.first_copied_at as int,
        }
    }
}

impl EntryView {
    /// Well-formedness of one modeled entry: positive id, a copy count
    /// of at least one, ordered non-negative timestamps, exactly one
    /// payload, and a binary payload only on image entries.
    pub open spec fn wf(self) -> bool {
        &&& self.id >= 1
        &&& self.copy_count >= 1
        &&& 0 <= self.first_copied_at <= self.created_at
        &&& (self.text_content is Some <==> self.image_data is None)
        &&& (self.image_data is Some ==> self.content_type == ContentType::Image)
    }

    /// The entry as bulk listings report it: the binary payload withheld.
    pub open spec fn listed(self) -> EntryView {
        EntryView {
            id: self.id,
            content_type: self.content_type,
            text_content: self.text_content,
            image_data: None,
            source_app: self.source_app,
            created_at: self.created_at,
            copy_count: self.copy_count,
            first_copied_at: self.first_copied_at,
        }
    }
}

/// The views of a sequence of records.
pub open spec fn views(s: Seq<ClipboardEntry>) -> Seq<EntryView> {
    s.map_values(|x: ClipboardEntry| x@)
}

/// Taking views preserves length and goes through indexing.
pub broadcast proof fn lemma_views(s: Seq<ClipboardEntry>)
    ensures
        (#[trigger] views(s)).len() == s.len(),
        forall|i: int| 0 <= i < s.len() ==> views(s)[i] == (#[trigger] s[i])@,
{
}

/// Recency order: `a` ranks strictly above `b` when it was active
/// later, or at the same instant with the larger id.
pub open spec fn entry_key_gt(a: EntryView, b: EntryView) -> bool {
    a.created_at > b.created_at || (a.created_at == b.created_at && a.id > b.id)
}

/// Whether `a` ranks strictly above `b` in recency order.
pub fn key_gt(a: &ClipboardEntry, b: &ClipboardEntry) -> (r: bool)
    ensures
        r == entry_key_gt(a@, b@),
{
    a.created_at > b.created_at || (a.created_at == b.created_at && a.id > b.id)
}

/// Strictly descending recency order.
pub open spec fn sorted_desc(s: Seq<EntryView>) -> bool {
    forall|i: int, j: int| 0 <= i < j < s.len() ==> entry_key_gt(#[trigger] s[i], #[trigger] s[j])
}

/// Pairwise distinct ids.
pub open spec fn uniq_ids(s: Seq<EntryView>) -> bool {
    forall|i: int, j: int| 0 <= i < j < s.len() ==> (#[trigger] s[i]).id != (#[trigger] s[j]).id
}

/// `id` occurs nowhere in `s`.
pub open spec fn fresh_id(s: Seq<EntryView>, id: int) -> bool {
    forall|i: int| 0 <= i < s.len() ==> (#[trigger] s[i]).id != id
}

/// Some entry of `s` carries `id`.
pub open spec fn has_id(s: Seq<EntryView>, id: int) -> bool {
    exists|i: int| 0 <= i < s.len() && (#[trigger] s[i]).id == id
}

/// `e` placed into the descending sequence `s` at its ordered position.
pub open spec fn sorted_insert(s: Seq<EntryView>, e: EntryView) -> Seq<EntryView>
    decreases s.len(),
{
    if s.len() == 0 {
        seq![e]
    } else if entry_key_gt(s[0], e) {
        seq![s[0]] + sorted_insert(s.drop_first(), e)
    } else {
        seq![e] + s
    }
}

/// Placing an entry at the first position it does not rank below is
/// exactly `sorted_insert`.
pub proof fn lemma_sorted_insert_at(s: Seq<EntryView>, e: EntryView, k: int)
    requires
        sorted_desc(s),
        0 <= k <= s.len(),
        forall|i: int| 0 <= i < k ==> entry_key_gt(#[trigger] s[i], e),
        k < s.len() ==> !entry_key_gt(s[k], e),
    ensures
        s.insert(k, e) == sorted_insert(s, e),
    decreases s.len(),
{
    if s.len() == 0 {
        assert(s.insert(0, e) =~= seq![e]);
    } else if k == 0 {
        assert(s.insert(0, e) =~= seq![e] + s);
    } else {
        let rest = s.drop_first();
        assert(sorted_desc(rest)) by {
            assert forall|i: int, j: int| 0 <= i < j < rest.len() implies entry_key_gt(
                #[trigger] rest[i],
                #[trigger] rest[j],
            ) by {
                assert(rest[i] == s[i + 1] && rest[j] == s[j + 1]);
            }
        }
        assert(forall|i: int| 0 <= i < k - 1 ==> entry_key_gt(#[trigger] rest[i], e)) by {
            assert(forall|i: int| 0 <= i < k - 1 ==> rest[i] == s[i + 1]);
        }
        lemma_sorted_insert_at(rest, e, k - 1);
        assert(s.insert(k, e) =~= seq![s[0]] + rest.insert(k - 1, e));
    }
}

/// What `sorted_insert` yields: one entry longer, still strictly
/// sorted, with distinct ids, containing the new entry and everything
/// the input contained, and nothing else.
pub proof fn lemma_sorted_insert_props(s: Seq<EntryView>, e: EntryView)
    requires
        sorted_desc(s),
        uniq_ids(s),
        fresh_id(s, e.id),
    ensures
        sorted_insert(s, e).len() == s.len() + 1,
        sorted_desc(sorted_insert(s, e)),
        uniq_ids(sorted_insert(s, e)),
        forall|i: int|
            0 <= i < sorted_insert(s, e).len() ==> (#[trigger] sorted_insert(s, e)[i] == e
                || s.contains(sorted_insert(s, e)[i])),
        sorted_insert(s, e).contains(e),
        forall|x: EntryView| s.contains(x) ==> #[trigger] sorted_insert(s, e).contains(x),
    decreases s.len(),
{
    let out = sorted_insert(s, e);
    if s.len() == 0 {
        assert(out =~= seq![e]);
        assert(out[0] == e);
    } else if entry_key_gt(s[0], e) {
        let rest = s.drop_first();
        assert(sorted_desc(rest) && uniq_ids(rest) && fresh_id(rest, e.id)) by {
            assert(forall|i: int| 0 <= i < rest.len() ==> #[trigger] rest[i] == s[i + 1]);
        }
        lemma_sorted_insert_props(rest, e);
        let sub = sorted_insert(rest, e);
        assert(out =~= seq![s[0]] + sub);
        assert(forall|i: int| 0 <= i < sub.len() ==> #[trigger] out[i + 1] == sub[i]);
        assert(out[0] == s[0]);
        // s[0] ranks above, and differs in id from, everything in sub
        assert forall|i: int| 0 <= i < sub.len() implies entry_key_gt(out[0], #[trigger] sub[i])
            && out[0].id != sub[i].id by {
            if sub[i] != e {
                let j = choose|j: int| 0 <= j < rest.len() && rest[j] == sub[i];
                assert(s[j + 1] == rest[j]);
            }
        }
        assert forall|i: int| 0 <= i < out.len() implies (#[trigger] out[i] == e || s.contains(
            out[i],
        )) by {
            if i == 0 {
                assert(s[0] == out[0]);
            } else if out[i] != e {
                let j = choose|j: int| 0 <= j < rest.len() && rest[j] == out[i];
                assert(s[j + 1] == rest[j]);
            }
        }
        assert(sub.contains(e));
        let w = choose|w: int| 0 <= w < sub.len() && sub[w] == e;
        assert(out[w + 1] == e);
        assert forall|x: EntryView| s.contains(x) implies #[trigger] out.contains(x) by {
            let j = choose|j: int| 0 <= j < s.len() && s[j] == x;
            if j == 0 {
                assert(out[0] == x);
            } else {
                assert(rest[j - 1] == x);
                assert(sub.contains(x));
                let w2 = choose|w2: int| 0 <= w2 < sub.len() && sub[w2] == x;
                assert(out[w2 + 1] == x);
            }
        }
    } else {
        assert(out =~= seq![e] + s);
        assert(out[0] == e);
        assert(forall|i: int| 0 <= i < s.len() ==> #[trigger] out[i + 1] == s[i]);
        // e ranks above the head (distinct ids break the tie) and hence
        // above every entry of s
        assert(entry_key_gt(e, s[0]));
        assert forall|i: int| 0 <= i < s.len() implies entry_key_gt(e, #[trigger] s[i]) by {
            if i > 0 {
                assert(entry_key_gt(s[0], s[i]));
            }
        }
        assert forall|x: EntryView| s.contains(x) implies #[trigger] out.contains(x) by {
            let j = choose|j: int| 0 <= j < s.len() && s[j] == x;
            assert(out[j + 1] == x);
        }
    }
}

/// The single owned store handle: the clipboard history and the next
/// id to assign.
pub struct Storage {
    entries: Vec<ClipboardEntry>,
    next_id: i64,
}

impl View for Storage {
    type V = Seq<EntryView>;

    closed spec fn view(&self) -> Seq<EntryView> {
        views(self.entries@)
    }
}

impl Storage {
    /// The id the next insert will assign.
    pub closed spec fn next_id_spec(self) -> int {
        self.next_id as int
    }

    /// The store's invariant: every entry well-formed with an id below
    /// the next to assign, ids pairwise distinct, and the history held
    /// in strictly descending recency order.
    pub open spec fn wf(self) -> bool {
        &&& 1 <= self.next_id_spec() <= i64::MAX
        &&& sorted_desc(self@)
        &&& uniq_ids(self@)
        &&& forall|i: int|
            0 <= i < self@.len() ==> (#[trigger] self@[i]).wf() && self@[i].id < self.next_id_spec()
    }

    /// Whether the store can still assign a fresh id: inserts require
    /// room below the machine limit, which callers outside verified
    /// code test through this.
    pub fn can_assign_id(&self) -> (r: bool)
        ensures
            r == (self.next_id_spec() < i64::MAX),
    {
        self.next_id < i64::MAX
    }

    /// How many entries the store holds.
    pub fn entries_len(&self) -> (n: usize)
        ensures
            n == self@.len(),
    {
        self.entries.len()
    }

    /// The stored entry at position `i` of the descending order.
    pub(crate) fn entry_at(&self, i: usize) -> (e: &ClipboardEntry)
        requires
            i < self@.len(),
        ensures
            e@ == self@[i as int],
    {
        &self.entries[i]
    }

    /// A fresh, empty store.
    pub fn new_in_memory() -> (r: Result<Storage, StorageError>)
        ensures
            r is Ok,
            r->Ok_0.wf(),
            r->Ok_0@ == Seq::<EntryView>::empty(),
            r->Ok_0.next_id_spec() == 1,
    {
        let s = Storage { entries: Vec::new(), next_id: 1 };
        proof {
            assert(s@ =~= Seq::<EntryView>::empty());
        }
        Ok(s)
    }
}

/// Milliseconds since the Unix epoch, read from the system clock.
/// Relies on `std::time::SystemTime::now` and `duration_since`
/// against the epoch; a clock before the epoch reports zero, and a
/// span beyond `i64` saturates. Nothing more can be promised of a
/// wall clock than a non-negative reading.
#[verifier::external_body]
pub fn now_millis() -> (r: i64)
    ensures
        0 <= r,
{
    match std::time::SystemTime::now().duration_since(std::time::UNIX_EPOCH) {
        Ok(d) => {
            let ms = d.as_millis();
            if ms > i64::MAX as u128 {
                i64::MAX
            } else {
                ms as i64
            }
        },
        Err(_) => 0,
    }
}

/// Place `e` into the descending vector at its ordered position.
fn insert_sorted(entries: &mut Vec<ClipboardEntry>, e: ClipboardEntry)
    requires
        sorted_desc(views(old(entries)@)),
        fresh_id(views(old(entries)@), e@.id),
    ensures
        views(final(entries)@) == sorted_insert(views(old(entries)@), e@),
{
    let ghost s0 = views(entries@);
    let n = entries.len();
    let mut k: usize = 0;
    while k < n && key_gt(&entries[k], &e)
        invariant
            k <= n,
            n == entries@.len(),
            views(entries@) == s0,
            forall|i: int| 0 <= i < k ==> entry_key_gt(#[trigger] s0[i], e@),
        decreases n - k,
    {
        k += 1;
    }
    entries.insert(k, e);
    proof {
        assert(views(entries@) =~= s0.insert(k as int, e@));
        lemma_sorted_insert_at(s0, e@, k as int);
    }
}

impl Storage {
    /// Insert a text-bearing entry stamped with the instant `now_ms`:
    /// the entry takes the next id, a copy count of one, and `now_ms`
    /// as both its creation and last-activity time.
    pub fn insert_text_at(
        &mut self,
        content_type: &ContentType,
        text: &str,
        source_app: &str,
        now_ms: i64,
    ) -> (r: Result<i64, StorageError>)
        requires
            old(self).wf(),
            old(self).next_id_spec() < i64::MAX,
            0 <= now_ms,
        ensures
            final(self).wf(),
            r is Ok,
            r->Ok_0 as int == old(self).next_id_spec(),
            final(self).next_id_spec() == old(self).next_id_spec() + 1,
            final(self)@ == sorted_insert(
                old(self)@,
                text_entry_view(
                    old(self).next_id_spec(),
                    *content_type,
                    text@,
                    source_app@,
                    now_ms as int,
                ),
            ),
    {
        let id = self.next_id;
        let e = ClipboardEntry {
            id,
            content_type: *content_type,
            text_content: Some(text.to_owned()),
            image_data: None,
            source_app: Some(source_app.to_owned()),
            created_at: now_ms,
            copy_count: 1,
            first_copied_at: now_ms,
        };
        proof {
            assert(e@ == text_entry_view(
                old(self).next_id_spec(),
                *content_type,
                text@,
                source_app@,
                now_ms as int,
            ));
            lemma_sorted_insert_props(self@, e@);
        }
        insert_sorted(&mut self.entries, e);
        self.next_id = id + 1;
        proof {
            assert forall|i: int| 0 <= i < self@.len() implies (#[trigger] self@[i]).wf()
                && self@[i].id < self.next_id by {
                assert(self@[i] == e@ || old(self)@.contains(self@[i]));
            }
        }
        Ok(id)
    }

    /// Insert an image entry stamped with the instant `now_ms`: the
    /// content type is forced to `Image` and the payload stored as a
    /// binary blob.
    pub fn insert_image_at(&mut self, image_data: &[u8], source_app: &str, now_ms: i64) -> (r:
        Result<i64, StorageError>)
        requires
            old(self).wf(),
            old(self).next_id_spec() < i64::MAX,
            0 <= now_ms,
        ensures
            final(self).wf(),
            r is Ok,
            r->Ok_0 as int == old(self).next_id_spec(),
            final(self).next_id_spec() == old(self).next_id_spec() + 1,
            final(self)@ == sorted_insert(
                old(self)@,
                image_entry_view(old(self).next_id_spec(), image_data@, source_app@, now_ms as int),
            ),
    {
        let id = self.next_id;
        let bytes = vstd::slice::slice_to_vec(image_data);
        let e = ClipboardEntry {
            id,
            content_type: ContentType::Image,
            text_content: None,
            image_data: Some(bytes),
            source_app: Some(source_app.to_owned()),
            created_at: now_ms,
            copy_count: 1,
            first_copied_at: now_ms,
        };
        proof {
            assert(e@ == image_entry_view(
                old(self).next_id_spec(),
                image_data@,
                source_app@,
                now_ms as int,
            ));
            lemma_sorted_insert_props(self@, e@);
        }
        insert_sorted(&mut self.entries, e);
        self.next_id = id + 1;
        proof {
            assert forall|i: int| 0 <= i < self@.len() implies (#[trigger] self@[i]).wf()
                && self@[i].id < self.next_id by {
                assert(self@[i] == e@ || old(self)@.contains(self@[i]));
            }
        }
        Ok(id)
    }

    /// Insert a text-bearing entry stamped with the current wall-clock
    /// time.
    pub fn insert_text_entry(
        &mut self,
        content_type: &ContentType,
        text: &str,
        source_app: &str,
    ) -> (r: Result<i64, StorageError>)
        requires
            old(self).wf(),
            old(self).next_id_spec() < i64::MAX,
        ensures
            final(self).wf(),
            r is Ok,
            r->Ok_0 as int == old(self).next_id_spec(),
            final(self).next_id_spec() == old(self).next_id_spec() + 1,
            exists|now: int|
                0 <= now && final(self)@ == sorted_insert(
                    old(self)@,
                    text_entry_view(
                        old(self).next_id_spec(),
                        *content_type,
                        text@,
                        source_app@,
                        now,
                    ),
                ),
    {
        let now = now_millis();
        self.insert_text_at(content_type, text, source_app, now)
    }

    /// Insert an image entry stamped with the current wall-clock time.
    pub fn insert_image_entry(&mut self, image_data: &[u8], source_app: &str) -> (r: Result<
        i64,
        StorageError,
    >)
        requires
            old(self).wf(),
            old(self).next_id_spec() < i64::MAX,
        ensures
            final(self).wf(),
            r is Ok,
            r->Ok_0 as int == old(self).next_id_spec(),
            final(self).next_id_spec() == old(self).next_id_spec() + 1,
            exists|now: int|
                0 <= now && final(self)@ == sorted_insert(
                    old(self)@,
                    image_entry_view(old(self).next_id_spec(), image_data@, source_app@, now),
                ),
    {
        let now = now_millis();
        self.insert_image_at(image_data, source_app, now)
    }
}

/// The model of a freshly inserted text entry.
pub open spec fn text_entry_view(
    id: int,
    ct: ContentType,
    text: Seq<char>,
    src: Seq<char>,
    now: int,
) -> EntryView {
    EntryView {
        id,
        content_type: ct,
        text_content: Some(text),
        image_data: None,
        source_app: Some(src),
        created_at: now,
        copy_count: 1,
        first_copied_at: now,
    }
}

/// The model of a freshly inserted image entry.
pub open spec fn image_entry_view(id: int, data: Seq<u8>, src: Seq<char>, now: int) -> EntryView {
    EntryView {
        id,
        content_type: ContentType::Image,
        text_content: None,
        image_data: Some(data),
        source_app: Some(src),
        created_at: now,
        copy_count: 1,
        first_copied_at: now,
    }
}

} // verus!
// The lookups and mutators over the stored history, and the sequence
// lemmas their proofs rest on.

use crate::queries::lemma_filter_step;

verus! {

/// The predicate that keeps every entry but the one with `id`.
pub open spec fn not_id_pred(id: int) -> spec_fn(EntryView) -> bool {
    |e: EntryView| e.id != id
}

/// The predicate retention keeps: at least as new as the cutoff.
pub open spec fn kept_pred(cutoff: int) -> spec_fn(EntryView) -> bool {
    |e: EntryView| e.created_at >= cutoff
}

/// The entry of `s` bearing `id`, if any.
pub open spec fn find_entry(s: Seq<EntryView>, id: int) -> Option<EntryView>
    decreases s.len(),
{
    if s.len() == 0 {
        None
    } else if s[0].id == id {
        Some(s[0])
    } else {
        find_entry(s.drop_first(), id)
    }
}

/// `find_entry` finds an entry exactly when one bears the id, and
/// under distinct ids it is the entry at any index bearing the id.
pub proof fn lemma_find_entry(s: Seq<EntryView>, id: int)
    ensures
        (find_entry(s, id) is Some) == has_id(s, id),
        find_entry(s, id) is Some ==> has_id(s, id) && find_entry(s, id)->Some_0.id == id
            && s.contains(find_entry(s, id)->Some_0),
        uniq_ids(s) ==> forall|i: int|
            0 <= i < s.len() && (#[trigger] s[i]).id == id ==> find_entry(s, id) == Some(s[i]),
    decreases s.len(),
{
    if s.len() > 0 {
        let rest = s.drop_first();
        lemma_find_entry(rest, id);
        assert(forall|i: int| 0 <= i < rest.len() ==> #[trigger] rest[i] == s[i + 1]);
        if s[0].id == id {
            assert(has_id(s, id));
            assert(s.contains(s[0])) by {
                assert(s[0] == s[0]);
            }
            if uniq_ids(s) {
                assert forall|i: int|
                    0 <= i < s.len() && (#[trigger] s[i]).id == id implies find_entry(s, id)
                    == Some(s[i]) by {
                    if i != 0 {
                        assert(s[0].id != s[i].id);
                    }
                }
            }
        } else {
            if has_id(s, id) {
                let w = choose|w: int| 0 <= w < s.len() && s[w].id == id;
                assert(rest[w - 1].id == id);
                assert(has_id(rest, id));
            }
            if has_id(rest, id) {
                let w = choose|w: int| 0 <= w < rest.len() && rest[w].id == id;
                assert(s[w + 1].id == id);
                assert(has_id(s, id));
            }
            if find_entry(s, id) is Some {
                let e = find_entry(s, id)->Some_0;
                assert(rest.contains(e));
                let w = choose|w: int| 0 <= w < rest.len() && rest[w] == e;
                assert(s[w + 1] == e);
                assert(s.contains(e));
            }
            if uniq_ids(s) {
                assert(uniq_ids(rest));
                assert forall|i: int|
                    0 <= i < s.len() && (#[trigger] s[i]).id == id implies find_entry(s, id)
                    == Some(s[i]) by {
                    assert(i != 0);
                    assert(rest[i - 1] == s[i]);
                }
            }
        }
    }
}

/// Filtering keeps only elements of the input, and preserves the
/// descending order and the distinctness of ids.
pub proof fn lemma_filter_keeps(s: Seq<EntryView>, pred: spec_fn(EntryView) -> bool)
    ensures
        forall|x: EntryView| #[trigger] s.filter(pred).contains(x) ==> s.contains(x),
        sorted_desc(s) ==> sorted_desc(s.filter(pred)),
        sorted_desc(s) && uniq_ids(s) ==> uniq_ids(s.filter(pred)),
        s.filter(pred).len() <= s.len(),
    decreases s.len(),
{
    reveal(Seq::filter);
    let out = s.filter(pred);
    if s.len() == 0 {
    } else {
        let head = s.drop_last();
        lemma_filter_keeps(head, pred);
        let sub = head.filter(pred);
        assert forall|x: EntryView| #[trigger] out.contains(x) implies s.contains(x) by {
            if pred(s.last()) {
                assert(out == sub.push(s.last()));
                let w = choose|w: int| 0 <= w < out.len() && out[w] == x;
                if w < sub.len() {
                    assert(sub.contains(x));
                    let v = choose|v: int| 0 <= v < head.len() && head[v] == x;
                    assert(s[v] == x);
                } else {
                    assert(x == s.last());
                }
            } else {
                assert(sub.contains(x));
                let v = choose|v: int| 0 <= v < head.len() && head[v] == x;
                assert(s[v] == x);
            }
        }
        if sorted_desc(s) {
            assert(sorted_desc(head)) by {
                assert(forall|i: int| 0 <= i < head.len() ==> #[trigger] head[i] == s[i]);
            }
            if uniq_ids(s) {
                assert(uniq_ids(head)) by {
                    assert(forall|i: int| 0 <= i < head.len() ==> #[trigger] head[i] == s[i]);
                }
            }
            if pred(s.last()) {
                assert(out == sub.push(s.last()));
                // everything already kept ranks above the new last element
                assert forall|i: int| 0 <= i < sub.len() implies entry_key_gt(
                    #[trigger] sub[i],
                    s.last(),
                ) && (uniq_ids(s) ==> sub[i].id != s.last().id) by {
                    assert(sub.contains(sub[i]));
                    assert(head.contains(sub[i]));
                    let v = choose|v: int| 0 <= v < head.len() && head[v] == sub[i];
                    assert(s[v] == sub[i] && v < s.len() - 1);
                }
                assert(sorted_desc(out)) by {
                    assert forall|i: int, j: int| 0 <= i < j < out.len() implies entry_key_gt(
                        #[trigger] out[i],
                        #[trigger] out[j],
                    ) by {
                        if j < sub.len() {
                            assert(out[i] == sub[i] && out[j] == sub[j]);
                        } else {
                            assert(out[j] == s.last() && out[i] == sub[i]);
                        }
                    }
                }
                if uniq_ids(s) {
                    assert(uniq_ids(out)) by {
                        assert forall|i: int, j: int| 0 <= i < j < out.len() implies (
                        #[trigger] out[i]).id != (#[trigger] out[j]).id by {
                            if j < sub.len() {
                                assert(out[i] == sub[i] && out[j] == sub[j]);
                            } else {
                                assert(out[j] == s.last() && out[i] == sub[i]);
                            }
                        }
                    }
                }
            }
        }
    }
}

/// When every element passes, filtering changes nothing.
pub proof fn lemma_filter_all(s: Seq<EntryView>, pred: spec_fn(EntryView) -> bool)
    requires
        forall|i: int| 0 <= i < s.len() ==> pred(#[trigger] s[i]),
    ensures
        s.filter(pred) == s,
    decreases s.len(),
{
    reveal(Seq::filter);
    if s.len() > 0 {
        let head = s.drop_last();
        lemma_filter_all(head, pred);
        assert(forall|i: int| 0 <= i < head.len() ==> #[trigger] head[i] == s[i]);
        assert(s.filter(pred) =~= s);
    }
}

/// Removing the one entry bearing `id` from a sequence of distinct ids
/// is the same as filtering that id out.
pub proof fn lemma_remove_is_filter(s: Seq<EntryView>, k: int, id: int)
    requires
        uniq_ids(s),
        0 <= k < s.len(),
        s[k].id == id,
    ensures
        s.remove(k) == s.filter(not_id_pred(id)),
{
    let pred = not_id_pred(id);
    let pre = s.subrange(0, k);
    let mid = s.subrange(k, k + 1);
    let post = s.subrange(k + 1, s.len() as int);
    assert(s =~= (pre + mid) + post);
    Seq::filter_distributes_over_add(pre + mid, post, pred);
    Seq::filter_distributes_over_add(pre, mid, pred);
    assert(forall|i: int| 0 <= i < pre.len() ==> pred(#[trigger] pre[i]));
    assert(forall|i: int| 0 <= i < post.len() ==> pred(#[trigger] post[i])) by {
        assert(forall|i: int| 0 <= i < post.len() ==> #[trigger] post[i] == s[k + 1 + i]);
    }
    lemma_filter_all(pre, pred);
    lemma_filter_all(post, pred);
    reveal(Seq::filter);
    assert(mid.drop_last() =~= Seq::<EntryView>::empty());
    assert(mid.last() == s[k]);
    assert(!pred(s[k]));
    assert(mid.drop_last().filter(pred) == mid.drop_last());
    assert(mid.filter(pred) =~= Seq::<EntryView>::empty());
    assert(s.filter(pred) =~= pre + post);
    assert(s.remove(k) =~= pre + post);
}

/// An entry as one more copy action leaves it: the activity time moves
/// to `now` — never backwards past the original copy time — and the
/// copy count grows by one, saturating at the machine limit.
pub open spec fn touched(e: EntryView, now: int) -> EntryView {
    EntryView {
        id: e.id,
        content_type: e.content_type,
        text_content: e.text_content,
        image_data: e.image_data,
        source_app: e.source_app,
        created_at: if now >= e.first_copied_at {
            now
        } else {
            e.first_copied_at
        },
        copy_count: if e.copy_count < i64::MAX {
            e.copy_count + 1
        } else {
            e.copy_count
        },
        first_copied_at: e.first_copied_at,
    }
}

impl Storage {
    /// The position of the entry bearing `id`, if one does.
    fn find_index(&self, id: i64) -> (r: Option<usize>)
        ensures
            r is Some ==> r->Some_0 < self@.len() && self@[r->Some_0 as int].id == id as int,
            r is None ==> !has_id(self@, id as int),
    {
        let n = self.entries.len();
        let mut i: usize = 0;
        while i < n
            invariant
                i <= n,
                n == self@.len(),
                forall|j: int| 0 <= j < i ==> (#[trigger] self@[j]).id != id as int,
            decreases n - i,
        {
            if self.entries[i].id == id {
                return Some(i);
            }
            i += 1;
        }
        None
    }

    /// The stored text of the entry bearing `id`: absent when no entry
    /// does, or when the entry carries no text.
    pub fn get_entry_text(&self, id: i64) -> (r: Result<Option<String>, StorageError>)
        requires
            self.wf(),
        ensures
            r is Ok,
            match find_entry(self@, id as int) {
                None => r->Ok_0 is None,
                Some(e) => r->Ok_0 is Some <==> e.text_content is Some,
            },
            r->Ok_0 is Some ==> find_entry(self@, id as int) is Some && r->Ok_0->Some_0@
                == find_entry(self@, id as int)->Some_0.text_content->Some_0,
    {
        proof {
            lemma_find_entry(self@, id as int);
        }
        match self.find_index(id) {
            Some(k) => Ok(crate::models::clone_opt_string(&self.entries[k].text_content)),
            None => Ok(None),
        }
    }

    /// The stored binary payload of the entry bearing `id`: absent when
    /// no entry does, or when the entry carries no binary payload —
    /// asking for the image of a text entry is a normal absent outcome.
    pub fn get_entry_image(&self, id: i64) -> (r: Result<Option<Vec<u8>>, StorageError>)
        requires
            self.wf(),
        ensures
            r is Ok,
            match find_entry(self@, id as int) {
                None => r->Ok_0 is None,
                Some(e) => r->Ok_0 is Some <==> e.image_data is Some,
            },
            r->Ok_0 is Some ==> find_entry(self@, id as int) is Some && r->Ok_0->Some_0@
                == find_entry(self@, id as int)->Some_0.image_data->Some_0,
    {
        proof {
            lemma_find_entry(self@, id as int);
        }
        match self.find_index(id) {
            Some(k) => Ok(crate::models::clone_opt_bytes(&self.entries[k].image_data)),
            None => Ok(None),
        }
    }

    /// Remove the entry bearing `id`. Reports whether an entry was
    /// actually removed, so a second delete of the same id reports
    /// `false`; its id is never assigned again.
    pub fn delete_entry(&mut self, id: i64) -> (r: Result<bool, StorageError>)
        requires
            old(self).wf(),
        ensures
            final(self).wf(),
            r is Ok,
            r->Ok_0 == has_id(old(self)@, id as int),
            final(self)@ == old(self)@.filter(not_id_pred(id as int)),
            final(self).next_id_spec() == old(self).next_id_spec(),
    {
        match self.find_index(id) {
            Some(k) => {
                proof {
                    assert(has_id(self@, id as int));
                }
                let _removed = self.entries.remove(k);
                proof {
                    assert(self@ =~= old(self)@.remove(k as int));
                    lemma_remove_is_filter(old(self)@, k as int, id as int);
                    lemma_filter_keeps(old(self)@, not_id_pred(id as int));
                    assert forall|i: int| 0 <= i < self@.len() implies (#[trigger] self@[i]).wf()
                        && self@[i].id < self.next_id_spec() by {
                        assert(self@.contains(self@[i]));
                        let w = choose|w: int|
                            0 <= w < old(self)@.len() && old(self)@[w] == self@[i];
                    }
                }
                Ok(true)
            },
            None => {
                proof {
                    lemma_filter_all(self@, not_id_pred(id as int));
                }
                Ok(false)
            },
        }
    }
}

} // verus!
// Promotion and retention.

verus! {

impl Storage {
    /// Promote the entry bearing `id` as re-copied at the instant
    /// `now_ms`: its activity time becomes `now_ms` (never moving
    /// backwards past its original copy time), its copy count grows by
    /// one, and its original copy time stays untouched. Reports
    /// whether the entry existed.
    pub fn touch_at(&mut self, id: i64, now_ms: i64) -> (r: Result<bool, StorageError>)
        requires
            old(self).wf(),
            0 <= now_ms,
        ensures
            final(self).wf(),
            r is Ok,
            r->Ok_0 == has_id(old(self)@, id as int),
            final(self).next_id_spec() == old(self).next_id_spec(),
            !has_id(old(self)@, id as int) ==> final(self)@ == old(self)@,
            has_id(old(self)@, id as int) ==> final(self)@ == sorted_insert(
                old(self)@.filter(not_id_pred(id as int)),
                touched(find_entry(old(self)@, id as int)->Some_0, now_ms as int),
            ),
    {
        match self.find_index(id) {
            Some(k) => {
                let ghost e0 = self@[k as int];
                proof {
                    assert(has_id(self@, id as int));
                    lemma_find_entry(old(self)@, id as int);
                    assert(find_entry(old(self)@, id as int) == Some(e0));
                }
                let mut en = self.entries.remove(k);
                if now_ms >= en.first_copied_at {
                    en.created_at = now_ms;
                } else {
                    en.created_at = en.first_copied_at;
                }
                if en.copy_count < i64::MAX {
                    en.copy_count = en.copy_count + 1;
                }
                proof {
                    assert(en@ == touched(e0, now_ms as int));
                    assert(self@ =~= old(self)@.remove(k as int));
                    lemma_remove_is_filter(old(self)@, k as int, id as int);
                    lemma_filter_keeps(old(self)@, not_id_pred(id as int));
                    assert(fresh_id(self@, en@.id)) by {
                        assert forall|i: int| 0 <= i < self@.len() implies (
                        #[trigger] self@[i]).id != en@.id by {
                            Seq::lemma_filter_pred(old(self)@, not_id_pred(id as int), i);
                        }
                    }
                    lemma_sorted_insert_props(self@, en@);
                }
                let ghost filtered = self@;
                insert_sorted(&mut self.entries, en);
                proof {
                    assert(self@ == sorted_insert(filtered, en@));
                    assert forall|i: int| 0 <= i < self@.len() implies (#[trigger] self@[i]).wf()
                        && self@[i].id < self.next_id_spec() by {
                        if self@[i] != en@ {
                            assert(filtered.contains(self@[i]));
                            let w = choose|w: int|
                                0 <= w < old(self)@.len() && old(self)@[w] == self@[i];
                        } else {
                            assert(e0.wf() && e0.id < self.next_id_spec()) by {
                                assert(old(self)@[k as int] == e0);
                            }
                        }
                    }
                }
                Ok(true)
            },
            None => Ok(false),
        }
    }

    /// Promote the entry bearing `id` at the current wall-clock time.
    pub fn touch_entry(&mut self, id: i64) -> (r: Result<bool, StorageError>)
        requires
            old(self).wf(),
        ensures
            final(self).wf(),
            r is Ok,
            r->Ok_0 == has_id(old(self)@, id as int),
            final(self).next_id_spec() == old(self).next_id_spec(),
            !has_id(old(self)@, id as int) ==> final(self)@ == old(self)@,
            has_id(old(self)@, id as int) ==> exists|now: int|
                0 <= now && final(self)@ == sorted_insert(
                    old(self)@.filter(not_id_pred(id as int)),
                    touched(find_entry(old(self)@, id as int)->Some_0, now),
                ),
    {
        let now = now_millis();
        self.touch_at(id, now)
    }

    /// Remove every entry strictly older than `cutoff_ms` and report
    /// how many were removed; removing none is a normal outcome, not
    /// an error.
    pub fn cleanup_at(&mut self, cutoff_ms: i64) -> (r: Result<u64, StorageError>)
        requires
            old(self).wf(),
        ensures
            final(self).wf(),
            r is Ok,
            final(self)@ == old(self)@.filter(kept_pred(cutoff_ms as int)),
            r->Ok_0 as int == old(self)@.len() - final(self)@.len(),
            final(self).next_id_spec() == old(self).next_id_spec(),
    {
        let ghost orig = self@;
        let n0 = self.entries.len();
        let mut i: usize = 0;
        let ghost mut j: int = 0;
        while i < self.entries.len()
            invariant
                0 <= i <= self@.len(),
                0 <= j <= orig.len(),
                i <= j,
                self@.subrange(0, i as int) == orig.subrange(0, j).filter(
                    kept_pred(cutoff_ms as int),
                ),
                self@.subrange(i as int, self@.len() as int) == orig.subrange(
                    j,
                    orig.len() as int,
                ),
                self.next_id_spec() == old(self).next_id_spec(),
                n0 == orig.len(),
            decreases orig.len() - j,
        {
            proof {
                assert(views(self.entries@).len() == self.entries@.len());
                assert(self@.subrange(i as int, self@.len() as int).len() == orig.subrange(
                    j,
                    orig.len() as int,
                ).len());
                assert(j < orig.len());
                assert(self@.subrange(i as int, self@.len() as int)[0] == self@[i as int]);
                assert(orig.subrange(j, orig.len() as int)[0] == orig[j]);
                assert(self@[i as int] == orig[j]);
                crate::queries::lemma_filter_step(orig, kept_pred(cutoff_ms as int), j);
            }
            let ghost pre = self@;
            let ghost pre_entries = self.entries@;
            if self.entries[i].created_at < cutoff_ms {
                let _removed = self.entries.remove(i);
                proof {
                    broadcast use lemma_views;

                    assert(self.entries@ == pre_entries.remove(i as int));
                    assert forall|w: int| 0 <= w < self@.len() implies self@[w] == (if w < i {
                        pre[w]
                    } else {
                        pre[w + 1]
                    }) by {
                        if w < i {
                            assert(self.entries@[w] == pre_entries[w]);
                        } else {
                            assert(self.entries@[w] == pre_entries[w + 1]);
                        }
                    }
                    assert(!kept_pred(cutoff_ms as int)(orig[j]));
                    assert(self@.subrange(0, i as int) =~= pre.subrange(0, i as int));
                    assert(self@.subrange(0, i as int) =~= orig.subrange(0, j + 1).filter(
                        kept_pred(cutoff_ms as int),
                    ));
                    assert forall|w: int| 0 <= w < self@.len() - i implies self@.subrange(
                        i as int,
                        self@.len() as int,
                    )[w] == orig.subrange(j + 1, orig.len() as int)[w] by {
                        assert(self@[i + w] == pre[i + w + 1]);
                        assert(pre.subrange(i as int, pre.len() as int)[w + 1] == pre[i + w + 1]);
                        assert(orig.subrange(j, orig.len() as int)[w + 1] == orig[j + 1 + w]);
                    }
                    assert(self@.subrange(i as int, self@.len() as int) =~= orig.subrange(
                        j + 1,
                        orig.len() as int,
                    ));
                    j = j + 1;
                }
            } else {
                proof {
                    assert(kept_pred(cutoff_ms as int)(orig[j]));
                    assert(self@.subrange(0, i + 1) =~= self@.subrange(0, i as int).push(
                        self@[i as int],
                    ));
                    assert(self@.subrange(0, i + 1) =~= orig.subrange(0, j + 1).filter(
                        kept_pred(cutoff_ms as int),
                    ));
                    assert forall|w: int| 0 <= w < self@.len() - i - 1 implies #[trigger] self@
                        .subrange(i + 1, self@.len() as int)[w] == orig.subrange(
                        j + 1,
                        orig.len() as int,
                    )[w] by {
                        assert(self@.subrange(i as int, self@.len() as int)[w + 1] == self@[i + 1
                            + w]);
                        assert(orig.subrange(j, orig.len() as int)[w + 1] == orig[j + 1 + w]);
                    }
                    assert(self@.subrange(i + 1, self@.len() as int) =~= orig.subrange(
                        j + 1,
                        orig.len() as int,
                    ));
                    j = j + 1;
                }
                i += 1;
            }
        }
        proof {
            assert(self@.subrange(i as int, self@.len() as int).len() == 0);
            assert(j == orig.len());
            assert(orig.subrange(0, j) =~= orig);
            assert(self@ =~= self@.subrange(0, i as int));
            assert(self@ == orig.filter(kept_pred(cutoff_ms as int)));
            lemma_filter_keeps(orig, kept_pred(cutoff_ms as int));
            assert forall|w: int| 0 <= w < self@.len() implies (#[trigger] self@[w]).wf()
                && self@[w].id < self.next_id_spec() by {
                assert(self@.contains(self@[w]));
                let v = choose|v: int| 0 <= v < orig.len() && orig[v] == self@[w];
            }
        }
        let n1 = self.entries.len();
        Ok((n0 - n1) as u64)
    }

    /// The retention cutoff `max_age_days` before `now`, in
    /// milliseconds, saturating at the machine limit.
    pub open spec fn cutoff_of(now: int, days: int) -> int {
        if now - days * 86_400_000 > i64::MAX {
            i64::MAX as int
        } else {
            now - days * 86_400_000
        }
    }

    /// Remove every entry older than `max_age_days` days before the
    /// current wall-clock time, and report how many were removed.
    pub fn cleanup_old_entries(&mut self, max_age_days: i32) -> (r: Result<u64, StorageError>)
        requires
            old(self).wf(),
        ensures
            final(self).wf(),
            r is Ok,
            final(self).next_id_spec() == old(self).next_id_spec(),
            exists|now: int|
                0 <= now && final(self)@ == old(self)@.filter(
                    kept_pred(Self::cutoff_of(now, max_age_days as int)),
                ) && r->Ok_0 as int == old(self)@.len() - final(self)@.len(),
    {
        let now = now_millis();
        let span: i64 = (max_age_days as i64) * 86_400_000;
        let cutoff: i64 = if span >= 0 {
            now - span
        } else if now <= i64::MAX + span {
            now - span
        } else {
            i64::MAX
        };
        proof {
            assert(cutoff as int == Self::cutoff_of(now as int, max_age_days as int));
        }
        self.cleanup_at(cutoff)
    }
}

} // verus!
// The store-open path: bringing persisted rows to a well-formed store.

verus! {

/// Whether every persisted row can be loaded: each row individually
/// loadable, and no id repeated.
pub open spec fn rows_loadable(s: Seq<EntryView>) -> bool {
    uniq_ids(s) && forall|i: int|
        0 <= i < s.len() ==> crate::schema::row_loadable(#[trigger] s[i])
}

/// The store state that loading `s` row by row produces: every row
/// normalized and placed in descending recency order.
pub open spec fn load_rows(s: Seq<EntryView>) -> Seq<EntryView>
    decreases s.len(),
{
    if s.len() == 0 {
        Seq::empty()
    } else {
        sorted_insert(load_rows(s.drop_last()), crate::schema::normalized_row(s.last()))
    }
}

/// Loading keeps exactly the ids of the rows, and — for loadable rows
/// — yields a strictly ordered, well-formed history.
pub proof fn lemma_load_rows(s: Seq<EntryView>)
    requires
        rows_loadable(s),
    ensures
        forall|x: int| has_id(load_rows(s), x) <==> has_id(s, x),
        sorted_desc(load_rows(s)),
        uniq_ids(load_rows(s)),
        forall|i: int|
            0 <= i < load_rows(s).len() ==> (#[trigger] load_rows(s)[i]).wf() && load_rows(
                s,
            )[i].id < i64::MAX,
        load_rows(s).len() == s.len(),
    decreases s.len(),
{
    reveal(Seq::filter);
    if s.len() > 0 {
        let head = s.drop_last();
        assert(rows_loadable(head)) by {
            assert(forall|i: int| 0 <= i < head.len() ==> #[trigger] head[i] == s[i]);
        }
        lemma_load_rows(head);
        let sub = load_rows(head);
        let e = crate::schema::normalized_row(s.last());
        crate::schema::lemma_normalized_row_wf(s.last());
        assert(fresh_id(sub, e.id)) by {
            assert forall|i: int| 0 <= i < sub.len() implies (#[trigger] sub[i]).id != e.id by {
                if sub[i].id == e.id {
                    assert(has_id(sub, e.id));
                    assert(has_id(head, e.id));
                    let w = choose|w: int| 0 <= w < head.len() && head[w].id == e.id;
                    assert(s[w].id == s[s.len() - 1].id);
                    assert(false);
                }
            }
        }
        lemma_sorted_insert_props(sub, e);
        let out = load_rows(s);
        assert(out == sorted_insert(sub, e));
        assert forall|x: int| has_id(out, x) implies has_id(s, x) by {
            let w = choose|w: int| 0 <= w < out.len() && out[w].id == x;
            if out[w] == e {
                assert(s[s.len() - 1].id == x);
            } else {
                assert(sub.contains(out[w]));
                let v = choose|v: int| 0 <= v < sub.len() && sub[v] == out[w];
                assert(has_id(sub, x));
                assert(has_id(head, x));
                let u = choose|u: int| 0 <= u < head.len() && head[u].id == x;
                assert(s[u].id == x);
            }
        }
        assert forall|x: int| has_id(s, x) implies has_id(out, x) by {
            let w = choose|w: int| 0 <= w < s.len() && s[w].id == x;
            if w == s.len() - 1 {
                assert(out.contains(e));
                let v = choose|v: int| 0 <= v < out.len() && out[v] == e;
            } else {
                assert(head[w].id == x);
                assert(has_id(head, x));
                let u = choose|u: int| 0 <= u < sub.len() && sub[u].id == x;
                assert(out.contains(sub[u]));
                let v = choose|v: int| 0 <= v < out.len() && out[v] == sub[u];
            }
        }
        assert forall|i: int| 0 <= i < out.len() implies (#[trigger] out[i]).wf() && out[i].id
            < i64::MAX by {
            if out[i] != e {
                assert(sub.contains(out[i]));
                let v = choose|v: int| 0 <= v < sub.len() && sub[v] == out[i];
            }
        }
    }
}

impl Storage {
    /// Open-time loading: bring persisted rows — possibly written by
    /// an older schema — to a well-formed store. Every row passes the
    /// schema normalization, the history is rebuilt in descending
    /// recency order, and ids resume past the largest one loaded. Rows
    /// no well-formed entry can stand for — a non-positive or repeated
    /// id, a negative timestamp, both payloads or neither, a binary
    /// payload on a non-image row — are refused as a whole.
    pub fn from_rows(rows: Vec<ClipboardEntry>) -> (r: Result<Storage, StorageError>)
        ensures
            r is Ok <==> rows_loadable(views(rows@)),
            r is Ok ==> r->Ok_0.wf() && r->Ok_0@ == load_rows(views(rows@)),
    {
        broadcast use lemma_views;

        let ghost all = views(rows@);
        let mut pending = rows;
        let mut st = Storage { entries: Vec::new(), next_id: 1 };
        let ghost mut done: int = 0;
        proof {
            assert(st@ =~= Seq::<EntryView>::empty());
            assert(all.subrange(0, 0) =~= Seq::<EntryView>::empty());
            assert(load_rows(all.subrange(0, 0)) == Seq::<EntryView>::empty());
        }
        while pending.len() > 0
            invariant
                0 <= done <= all.len(),
                all == views(rows@),
                views(pending@) =~= all.subrange(done, all.len() as int),
                st@ == load_rows(all.subrange(0, done)),
                rows_loadable(all.subrange(0, done)),
                st.wf(),
                forall|i: int| 0 <= i < st@.len() ==> (#[trigger] st@[i]).id < st.next_id_spec(),
                st.next_id_spec() <= i64::MAX,
            decreases pending.len(),
        {
            let ghost prefix = all.subrange(0, done);
            let ghost pend0 = views(pending@);
            let row = pending.remove(0);
            proof {
                broadcast use lemma_views;

                assert(pend0.len() == all.len() - done);
                assert(pend0[0] == all[done]);
                assert(row@ == all[done]);
                assert(views(pending@) =~= all.subrange(done + 1, all.len() as int)) by {
                    assert forall|w: int| 0 <= w < pending@.len() implies views(pending@)[w]
                        == all.subrange(done + 1, all.len() as int)[w] by {
                        assert(views(pending@)[w] == pend0[w + 1]);
                        assert(pend0[w + 1] == all.subrange(done, all.len() as int)[w + 1]);
                    }
                }
            }
            // refuse a row that no well-formed entry can stand for
            let bad_shape = row.id < 1 || row.id == i64::MAX || row.created_at < 0
                || row.first_copied_at < 0 || (row.text_content.is_some()
                == row.image_data.is_some()) || (row.image_data.is_some() && !(row.content_type
                == ContentType::Image));
            if bad_shape {
                proof {
                    assert(!crate::schema::row_loadable(all[done]));
                    assert(!rows_loadable(all));
                }
                return Err(StorageError::InvalidRow);
            }
            // refuse a repeated id
            if let Some(_k) = st.find_index(row.id) {
                proof {
                    lemma_load_rows(prefix);
                    assert(has_id(st@, row.id as int));
                    assert(has_id(prefix, all[done].id));
                    let w = choose|w: int| 0 <= w < prefix.len() && prefix[w].id == all[done].id;
                    assert(all[w].id == all[done].id && w < done);
                    assert(!uniq_ids(all));
                    assert(!rows_loadable(all));
                }
                return Err(StorageError::InvalidRow);
            }
            let id = row.id;
            let en = crate::schema::normalize_row(row);
            proof {
                assert(crate::schema::row_loadable(all[done]));
                crate::schema::lemma_normalized_row_wf(all[done]);
                lemma_load_rows(prefix);
                assert(!has_id(st@, en@.id));
                assert(fresh_id(st@, en@.id)) by {
                    assert forall|i: int| 0 <= i < st@.len() implies (#[trigger] st@[i]).id
                        != en@.id by {
                        if st@[i].id == en@.id {
                            assert(has_id(st@, en@.id));
                        }
                    }
                }
                lemma_sorted_insert_props(st@, en@);
            }
            let ghost st0 = st@;
            insert_sorted(&mut st.entries, en);
            if id >= st.next_id {
                st.next_id = id + 1;
            }
            proof {
                assert(st@ == sorted_insert(st0, en@));
                assert(all.subrange(0, done + 1).drop_last() =~= prefix);
                assert(all.subrange(0, done + 1).last() == all[done]);
                assert(st@ == load_rows(all.subrange(0, done + 1)));
                assert(rows_loadable(all.subrange(0, done + 1))) by {
                    let ext = all.subrange(0, done + 1);
                    assert(forall|i: int| 0 <= i < ext.len() ==> #[trigger] ext[i] == all[i]);
                    assert forall|i: int, j: int| 0 <= i < j < ext.len() implies (
                    #[trigger] ext[i]).id != (#[trigger] ext[j]).id by {
                        if j < done {
                            assert(prefix[i] == ext[i] && prefix[j] == ext[j]);
                        } else {
                            assert(j == done);
                            if ext[i].id == ext[j].id {
                                lemma_load_rows(prefix);
                                assert(has_id(prefix, all[done].id));
                                assert(has_id(st0, en@.id));
                            }
                        }
                    }
                }
                assert forall|i: int| 0 <= i < st@.len() implies ((#[trigger] st@[i]).wf()
                    && st@[i].id < st.next_id_spec()) by {
                    if st@[i] == en@ {
                    } else {
                        assert(st0.contains(st@[i]));
                        let w = choose|w: int| 0 <= w < st0.len() && st0[w] == st@[i];
                    }
                }
                done = done + 1;
            }
        }
        proof {
            assert(views(pending@).len() == 0);
            assert(done == all.len());
            assert(all.subrange(0, done) =~= all);
        }
        Ok(st)
    }
}

} // verus!
