//! Entity model: the clipboard entry record, its content-type
//! classification, and the store's error type.

use vstd::prelude::*;

verus! {

/// Classification of a captured clipboard item; fixed at creation.
#[derive(Clone, Copy, Debug, PartialEq, Eq, Structural)]
pub enum ContentType {
    PlainText,
    RichText,
    Image,
    FilePath,
}

/// The stable textual name of each content-type variant.
pub open spec fn content_type_name(ct: ContentType) -> Seq<char> {
    match ct {
        ContentType::PlainText => "PlainText"@,
        ContentType::RichText => "RichText"@,
        ContentType::Image => "Image"@,
        ContentType::FilePath => "FilePath"@,
    }
}

/// The variant a textual name stands for; unknown names fall back to
/// plain text.
pub open spec fn content_type_of_name(s: Seq<char>) -> ContentType {
    if s == "RichText"@ {
        ContentType::RichText
    } else if s == "Image"@ {
        ContentType::Image
    } else if s == "FilePath"@ {
        ContentType::FilePath
    } else {
        ContentType::PlainText
    }
}

/// Exact character-wise equality of two string slices.
fn str_eq(a: &str, b: &str) -> (r: bool)
    ensures
        r == (a@ == b@),
{
    let n = a.unicode_len();
    if n != b.unicode_len() {
        return false;
    }
    let mut i: usize = 0;
    while i < n
        invariant
            i <= n,
            n == a@.len(),
            n == b@.len(),
            forall|j: int| 0 <= j < i ==> a@[j] == b@[j],
        decreases n - i,
    {
        if a.get_char(i) != b.get_char(i) {
            return false;
        }
        i += 1;
    }
    proof {
        assert(a@ =~= b@);
    }
    true
}

impl ContentType {
    /// The name this variant is persisted under.
    pub fn as_str(&self) -> (r: &str)
        ensures
            r@ == content_type_name(*self),
    {
        match self {
            ContentType::PlainText => "PlainText",
            ContentType::RichText => "RichText",
            ContentType::Image => "Image",
            ContentType::FilePath => "FilePath",
        }
    }

    /// The variant a persisted name stands for.
    pub fn from_str(s: &str) -> (r: Self)
        ensures
            r == content_type_of_name(s@),
    {
        if str_eq(s, "RichText") {
            ContentType::RichText
        } else if str_eq(s, "Image") {
            ContentType::Image
        } else if str_eq(s, "FilePath") {
            ContentType::FilePath
        } else {
            ContentType::PlainText
        }
    }
}

/// One captured clipboard snapshot with its metadata.
///
/// Timestamps are milliseconds since the epoch. `created_at` is the
/// last-activity time and moves forward when the entry is promoted;
/// `first_copied_at` never changes after creation.
#[derive(Debug)]
pub struct ClipboardEntry {
    pub id: i64,
    pub content_type: ContentType,
    pub text_content: Option<String>,
    pub image_data: Option<Vec<u8>>,
    pub source_app: Option<String>,
    pub created_at: i64,
    pub copy_count: i64,
    pub first_copied_at: i64,
}

impl ClipboardEntry {
    /// Well-formedness of a single record: a positive id, a copy count of
    /// at least one, ordered non-negative timestamps, exactly one payload
    /// (text or image), and a binary payload only on image entries.
    pub open spec fn wf(self) -> bool {
        &&& self.id >= 1
        &&& self.copy_count >= 1
        &&& 0 <= self.first_copied_at <= self.created_at
        &&& (self.text_content is Some <==> self.image_data is None)
        &&& (self.image_data is Some ==> self.content_type == ContentType::Image)
    }

    /// The record as bulk listings report it: every field kept, except
    /// that the binary payload is withheld.
    pub open spec fn listed(self) -> ClipboardEntry {
        ClipboardEntry { image_data: None, ..self }
    }

    /// A listing copy of the record, with the binary payload withheld.
    pub fn to_listing(&self) -> (r: ClipboardEntry)
        ensures
            r == self.listed(),
    {
        ClipboardEntry {
            id: self.id,
            content_type: self.content_type,
            text_content: clone_opt_string(&self.text_content),
            image_data: None,
            source_app: clone_opt_string(&self.source_app),
            created_at: self.created_at,
            copy_count: self.copy_count,
            first_copied_at: self.first_copied_at,
        }
    }
}

/// An exact copy of an optional string.
pub fn clone_opt_string(s: &Option<String>) -> (r: Option<String>)
    ensures
        r == *s,
{
    match s {
        Some(t) => Some(t.clone()),
        None => None,
    }
}

/// A copy of an optional byte buffer, equal to the original view-wise.
pub fn clone_opt_bytes(v: &Option<Vec<u8>>) -> (r: Option<Vec<u8>>)
    ensures
        r is Some <==> *v is Some,
        r is Some ==> r->Some_0@ == v->Some_0@,
{
    match v {
        Some(b) => {
            let c = b.clone();
            proof {
                assert(c@ =~= b@);
            }
            Some(c)
        },
        None => None,
    }
}

/// What an operation of the store can fail with.
#[derive(Clone, Copy, Debug, PartialEq, Eq, Structural)]
pub enum StorageError {
    /// A destination path handed to the encrypted migration holds a
    /// character the attachment statement cannot carry safely.
    InvalidPath,
    /// An encryption key handed to the encrypted migration holds a
    /// character the attachment statement cannot carry safely.
    InvalidKey,
    /// A persisted row could not be brought to a well-formed entry.
    InvalidRow,
}

} // verus!
