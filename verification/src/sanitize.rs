//! Search-input sanitization. A raw query is trimmed, stripped of the
//! prefix-wildcard operator, quote-escaped, and wrapped as a quoted
//! literal phrase with a trailing prefix marker, so that no search
//! syntax of the full-text engine can be injected through user input.

use vstd::prelude::*;
use crate::text::trimmed;

verus! {

/// `s` with every prefix-wildcard star removed.
pub open spec fn strip_stars(s: Seq<char>) -> Seq<char> {
    s.filter(|c: char| c != '*')
}

/// `s` with every embedded double quote doubled, which makes it inert
/// inside a quoted full-text phrase.
pub open spec fn escape_quotes(s: Seq<char>) -> Seq<char>
    decreases s.len(),
{
    if s.len() == 0 {
        Seq::empty()
    } else {
        escape_quotes(s.drop_last()) + (if s.last() == '"' {
            seq!['"', '"']
        } else {
            seq![s.last()]
        })
    }
}

/// The literal phrase a raw query stands for once trimmed and stripped
/// of wildcard stars. An empty result means the query carries nothing
/// searchable and the search falls back to the recency listing.
pub open spec fn query_phrase(q: Seq<char>) -> Seq<char> {
    strip_stars(trimmed(q))
}

/// The exact full-text query string the sanitizer builds for a
/// non-empty phrase: the escaped phrase in double quotes, followed by
/// the prefix-match marker.
pub open spec fn fts_query_of(q: Seq<char>) -> Seq<char> {
    seq!['"'] + escape_quotes(query_phrase(q)) + seq!['"', '*']
}

/// The literal phrase of the query, as characters.
pub fn query_phrase_chars(query: &Vec<char>) -> (v: Vec<char>)
    ensures
        v@ == query_phrase(query@),
{
    let (lo, hi) = crate::text::trim_bounds(query);
    proof {
        crate::text::lemma_trim_lo(query@);
        crate::text::lemma_trim_hi(query@);
    }
    let mut v: Vec<char> = Vec::new();
    if lo >= hi {
        proof {
            reveal(Seq::filter);
            assert(trimmed(query@).len() == 0);
            assert(v@ =~= query_phrase(query@));
        }
        return v;
    }
    proof {
        reveal(Seq::filter);
        assert(v@ =~= strip_stars(query@.subrange(lo as int, lo as int)));
    }
    let mut k: usize = lo;
    while k < hi
        invariant
            lo <= k <= hi <= query@.len(),
            lo as int == crate::text::trim_lo(query@),
            hi as int == crate::text::trim_hi(query@),
            v@ == strip_stars(query@.subrange(lo as int, k as int)),
        decreases hi - k,
    {
        let c = query[k];
        proof {
            reveal(Seq::filter);
            let before = query@.subrange(lo as int, k as int);
            let after = query@.subrange(lo as int, k + 1);
            assert(after.drop_last() =~= before);
            assert(after.last() == c);
        }
        if c != '*' {
            v.push(c);
        }
        k += 1;
    }
    proof {
        assert(query@.subrange(lo as int, hi as int) =~= trimmed(query@));
    }
    v
}

/// The sanitized full-text query for a raw search string: `None` when
/// trimming and star-stripping leave nothing, otherwise the quoted,
/// escaped, prefix-marked phrase.
pub fn build_fts_query(query: &Vec<char>) -> (r: Option<String>)
    ensures
        r is Some <==> query_phrase(query@).len() > 0,
        r is Some ==> r->Some_0@ == fts_query_of(query@),
{
    let phrase = query_phrase_chars(query);
    if phrase.len() == 0 {
        return None;
    }
    let mut out = String::from_str("\"");
    let n = phrase.len();
    let mut k: usize = 0;
    while k < n
        invariant
            k <= n,
            n == phrase@.len(),
            out@ == "\""@ + escape_quotes(phrase@.subrange(0, k as int)),
        decreases n - k,
    {
        proof {
            let before = phrase@.subrange(0, k as int);
            let after = phrase@.subrange(0, k + 1);
            assert(after.drop_last() =~= before);
        }
        if phrase[k] == '"' {
            out.append("\"\"");
            proof {
                reveal_strlit("\"\"");
                reveal_strlit("\"");
                assert(escape_quotes(phrase@.subrange(0, k + 1)) =~= escape_quotes(
                    phrase@.subrange(0, k as int),
                ) + "\"\""@);
                assert(out@ =~= "\""@ + escape_quotes(phrase@.subrange(0, k + 1)));
            }
        } else {
            let piece = single_char_string(phrase[k]);
            out.append(piece.as_str());
            proof {
                assert(escape_quotes(phrase@.subrange(0, k + 1)) =~= escape_quotes(
                    phrase@.subrange(0, k as int),
                ) + seq![phrase@[k as int]]);
                assert(out@ =~= "\""@ + escape_quotes(phrase@.subrange(0, k + 1)));
            }
        }
        k += 1;
    }
    out.append("\"*");
    proof {
        reveal_strlit("\"");
        reveal_strlit("\"*");
        assert(phrase@.subrange(0, n as int) =~= phrase@);
        assert(out@ =~= fts_query_of(query@));
    }
    Some(out)
}

/// A one-character string.
/// Relies on `String::push`: appending one char to an empty string.
#[verifier::external_body]
fn single_char_string(c: char) -> (r: String)
    ensures
        r@ == seq![c],
{
    let mut s = String::new();
    s.push(c);
    s
}

} // verus!
