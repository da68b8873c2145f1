//! Validation for the plaintext-to-encrypted migration. The
//! destination path and the key are interpolated into a database
//! attachment statement that cannot carry bound parameters, so both
//! values are screened first: any embedded quote or NUL byte is
//! refused outright — a narrow, auditable reject-on-suspicious-input
//! guard, deliberately not an escaping scheme.

use vstd::prelude::*;
use crate::models::StorageError;

verus! {

/// A character that may not stand inside the attachment statement: a
/// single quote would close the quoted value, and a NUL byte would
/// truncate it.
pub open spec fn forbidden_char(c: char) -> bool {
    c == '\'' || c == '\u{0}'
}

/// Whether `s` holds any character the attachment statement cannot
/// carry safely.
pub open spec fn has_forbidden(s: Seq<char>) -> bool {
    exists|i: int| 0 <= i < s.len() && forbidden_char(#[trigger] s[i])
}

/// Scan a value for characters the attachment statement cannot carry.
fn scan_forbidden(s: &str) -> (r: bool)
    ensures
        r == has_forbidden(s@),
{
    let n = s.unicode_len();
    let mut i: usize = 0;
    while i < n
        invariant
            i <= n,
            n == s@.len(),
            forall|j: int| 0 <= j < i ==> !forbidden_char(#[trigger] s@[j]),
        decreases n - i,
    {
        let c = s.get_char(i);
        if c == '\'' || c == '\u{0}' {
            return true;
        }
        i += 1;
    }
    false
}

/// The exact statement batch the encrypted migration runs against the
/// plaintext source: attach the destination under the key, export
/// everything into it, detach.
pub open spec fn attach_statement(dest: Seq<char>, key: Seq<char>) -> Seq<char> {
    "ATTACH DATABASE '"@ + dest + "' AS encrypted KEY '"@ + key
        + "'; SELECT sqlcipher_export('encrypted'); DETACH DATABASE encrypted;"@
}

/// Validate the migration inputs and build the attachment batch. The
/// destination path is screened before the key, and a value holding a
/// quote or NUL is rejected before any statement text is built — the
/// caller must treat any error as "migration did not happen".
pub fn prepare_attach_statement(encrypted_path: &str, key: &str) -> (r: Result<
    String,
    StorageError,
>)
    ensures
        r is Ok <==> !has_forbidden(encrypted_path@) && !has_forbidden(key@),
        r is Ok ==> r->Ok_0@ == attach_statement(encrypted_path@, key@),
        has_forbidden(encrypted_path@) ==> r == Err::<String, StorageError>(
            StorageError::InvalidPath,
        ),
        !has_forbidden(encrypted_path@) && has_forbidden(key@) ==> r == Err::<
            String,
            StorageError,
        >(StorageError::InvalidKey),
{
    if scan_forbidden(encrypted_path) {
        return Err(StorageError::InvalidPath);
    }
    if scan_forbidden(key) {
        return Err(StorageError::InvalidKey);
    }
    let mut out = String::from_str("ATTACH DATABASE '");
    out.append(encrypted_path);
    out.append("' AS encrypted KEY '");
    out.append(key);
    out.append("'; SELECT sqlcipher_export('encrypted'); DETACH DATABASE encrypted;");
    Ok(out)
}

} // verus!
