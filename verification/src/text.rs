//! Character-level utilities: whitespace trimming and the
//! case-insensitive phrase-prefix match the search path uses.

use vstd::prelude::*;

verus! {

/// Whitespace, as query trimming understands it: the Unicode
/// White_Space code points — the set `str::trim` removes — written
/// out: the ASCII controls and space, next line, no-break space, the
/// ogham space mark, the typographic spaces, the line and paragraph
/// separators, the narrow and medium mathematical spaces, and the
/// ideographic space.
pub open spec fn is_space(c: char) -> bool {
    let u = c as int;
    ||| u == 0x09
    ||| u == 0x0A
    ||| u == 0x0B
    ||| u == 0x0C
    ||| u == 0x0D
    ||| u == 0x20
    ||| u == 0x85
    ||| u == 0xA0
    ||| u == 0x1680
    ||| (0x2000 <= u && u <= 0x200A)
    ||| u == 0x2028
    ||| u == 0x2029
    ||| u == 0x202F
    ||| u == 0x205F
    ||| u == 0x3000
}

/// Whether `c` counts as whitespace for query trimming.
pub fn space(c: char) -> (r: bool)
    ensures
        r == is_space(c),
{
    let u = c as u32;
    u == 0x09 || u == 0x0A || u == 0x0B || u == 0x0C || u == 0x0D || u == 0x20 || u == 0x85 || u
        == 0xA0 || u == 0x1680 || (0x2000 <= u && u <= 0x200A) || u == 0x2028 || u == 0x2029 || u
        == 0x202F || u == 0x205F || u == 0x3000
}

/// A character that can stand inside a search word: an ASCII letter or
/// digit. Anything else separates words.
pub open spec fn is_word_char(c: char) -> bool {
    (97 <= c as int && c as int <= 122)  // 'a'..'z'
    || (65 <= c as int && c as int <= 90)  // 'A'..'Z'
    || (48 <= c as int && c as int <= 57)  // '0'..'9'
}

/// Whether `c` can stand inside a search word.
pub fn word_char(c: char) -> (r: bool)
    ensures
        r == is_word_char(c),
{
    let u = c as u32;
    (97 <= u && u <= 122) || (65 <= u && u <= 90) || (48 <= u && u <= 57)
}

/// The code point `c` compares under when letter case is ignored:
/// an ASCII capital letter counts as its lower-case form.
pub open spec fn lower_code(c: char) -> int {
    if 65 <= c as int && c as int <= 90 {
        c as int + 32
    } else {
        c as int
    }
}

/// The case-ignoring code point of `c`.
pub fn lower_code_of(c: char) -> (r: u32)
    ensures
        r as int == lower_code(c),
{
    let u = c as u32;
    if 65 <= u && u <= 90 {
        u + 32
    } else {
        u
    }
}

/// How many leading whitespace characters `s` carries.
pub open spec fn trim_lo(s: Seq<char>) -> int
    decreases s.len(),
{
    if s.len() == 0 {
        0
    } else if is_space(s[0]) {
        1 + trim_lo(s.drop_first())
    } else {
        0
    }
}

/// Where the trailing whitespace of `s` begins.
pub open spec fn trim_hi(s: Seq<char>) -> int
    decreases s.len(),
{
    if s.len() == 0 {
        0
    } else if is_space(s.last()) {
        trim_hi(s.drop_last())
    } else {
        s.len() as int
    }
}

/// `s` with leading and trailing whitespace removed.
pub open spec fn trimmed(s: Seq<char>) -> Seq<char> {
    if trim_lo(s) <= trim_hi(s) {
        s.subrange(trim_lo(s), trim_hi(s))
    } else {
        Seq::empty()
    }
}

/// `trim_lo` is the first index that does not hold whitespace.
pub proof fn lemma_trim_lo(s: Seq<char>)
    ensures
        0 <= trim_lo(s) <= s.len(),
        forall|j: int| 0 <= j < trim_lo(s) ==> is_space(s[j]),
        trim_lo(s) < s.len() ==> !is_space(s[trim_lo(s)]),
    decreases s.len(),
{
    if s.len() > 0 && is_space(s[0]) {
        lemma_trim_lo(s.drop_first());
        assert forall|j: int| 0 <= j < trim_lo(s) implies is_space(s[j]) by {
            if j > 0 {
                assert(s.drop_first()[j - 1] == s[j]);
            }
        }
    }
}

/// `trim_hi` marks the end of the last non-whitespace character.
pub proof fn lemma_trim_hi(s: Seq<char>)
    ensures
        0 <= trim_hi(s) <= s.len(),
        forall|j: int| trim_hi(s) <= j < s.len() ==> is_space(s[j]),
        trim_hi(s) > 0 ==> !is_space(s[trim_hi(s) - 1]),
    decreases s.len(),
{
    if s.len() > 0 && is_space(s.last()) {
        lemma_trim_hi(s.drop_last());
        assert forall|j: int| trim_hi(s) <= j < s.len() implies is_space(s[j]) by {
            if j < s.len() - 1 {
                assert(s.drop_last()[j] == s[j]);
            }
        }
    }
}

/// Whitespace bounds are uniquely characterized, so a scan that finds
/// them computes exactly `trim_lo` and `trim_hi`.
pub proof fn lemma_trim_bounds_unique(s: Seq<char>, lo: int, hi: int)
    requires
        0 <= lo <= s.len(),
        forall|j: int| 0 <= j < lo ==> is_space(s[j]),
        lo < s.len() ==> !is_space(s[lo]),
        0 <= hi <= s.len(),
        forall|j: int| hi <= j < s.len() ==> is_space(s[j]),
        hi > 0 ==> !is_space(s[hi - 1]),
        lo == s.len() ==> hi == 0,
    ensures
        lo == trim_lo(s),
        hi == trim_hi(s),
{
    lemma_trim_lo(s);
    lemma_trim_hi(s);
    if lo < trim_lo(s) {
        assert(is_space(s[lo]));
        assert(false);
    }
    if trim_lo(s) < lo {
        assert(is_space(s[trim_lo(s)]));
        assert(lo <= s.len());
        assert(false);
    }
    if hi < trim_hi(s) {
        assert(is_space(s[trim_hi(s) - 1]));
        assert(false);
    }
    if trim_hi(s) < hi {
        assert(is_space(s[hi - 1]));
        if trim_hi(s) == 0 {
            assert(forall|j: int| 0 <= j < s.len() ==> is_space(s[j]));
            assert(lo == s.len());
        }
        assert(false);
    }
}

/// The chars of `s`, as a vector.
pub fn to_chars(s: &str) -> (v: Vec<char>)
    ensures
        v@ == s@,
{
    let n = s.unicode_len();
    let mut v: Vec<char> = Vec::new();
    let mut i: usize = 0;
    while i < n
        invariant
            i <= n,
            n == s@.len(),
            v@ == s@.subrange(0, i as int),
        decreases n - i,
    {
        v.push(s.get_char(i));
        proof {
            assert(v@ =~= s@.subrange(0, i + 1));
        }
        i += 1;
    }
    proof {
        assert(v@ =~= s@);
    }
    v
}

/// The trimming bounds of `s`: the whitespace-free region is
/// `s@.subrange(r.0, r.1)` whenever `r.0 <= r.1`.
pub fn trim_bounds(s: &Vec<char>) -> (r: (usize, usize))
    ensures
        r.0 as int == trim_lo(s@),
        r.1 as int == trim_hi(s@),
{
    let n = s.len();
    let mut lo: usize = 0;
    while lo < n && space(s[lo])
        invariant
            lo <= n,
            n == s@.len(),
            forall|j: int| 0 <= j < lo ==> is_space(s@[j]),
        decreases n - lo,
    {
        lo += 1;
    }
    let mut hi: usize = n;
    if lo == n {
        hi = 0;
        proof {
            lemma_trim_bounds_unique(s@, lo as int, 0);
        }
        return (lo, hi);
    }
    while hi > 0 && space(s[hi - 1])
        invariant
            hi <= n,
            n == s@.len(),
            forall|j: int| hi <= j < n ==> is_space(s@[j]),
        decreases hi,
    {
        hi -= 1;
    }
    proof {
        lemma_trim_bounds_unique(s@, lo as int, hi as int);
    }
    (lo, hi)
}

/// The phrase `pat` matches `text` at position `i`: the position begins
/// a word, and each character agrees with the phrase when case is
/// ignored. The last phrase character may fall in the middle of a word,
/// which gives the phrase prefix-match semantics.
///
/// This is the library's own definition of a phrase match, and it is
/// deliberately character-contiguous and ASCII-case-insensitive: the
/// phrase must appear as consecutive characters, so punctuation or
/// extra spaces between the words of a multi-word phrase, and case
/// differences outside ASCII, are matched literally — narrower than a
/// token-based full-text engine, which also matches across separator
/// runs and folds Unicode case.
pub open spec fn match_at(text: Seq<char>, pat: Seq<char>, i: int) -> bool {
    &&& 0 <= i
    &&& i + pat.len() <= text.len()
    &&& (i == 0 || !is_word_char(text[i - 1]))
    &&& (forall|j: int| 0 <= j < pat.len() ==> lower_code(text[i + j]) == lower_code(pat[j]))
}

/// The phrase `pat` matches somewhere in `text`.
pub open spec fn phrase_matches(text: Seq<char>, pat: Seq<char>) -> bool {
    exists|i: int| match_at(text, pat, i)
}

/// Whether `pat` matches `text` at position `i`.
fn match_here(text: &Vec<char>, pat: &Vec<char>, i: usize) -> (r: bool)
    requires
        i + pat@.len() <= text@.len(),
    ensures
        r == match_at(text@, pat@, i as int),
{
    if i > 0 && word_char(text[i - 1]) {
        return false;
    }
    let n = text.len();
    let m = pat.len();
    let mut j: usize = 0;
    while j < m
        invariant
            j <= m,
            m == pat@.len(),
            n == text@.len(),
            i + m <= n,
            i == 0 || !is_word_char(text@[i as int - 1]),
            forall|k: int| 0 <= k < j ==> lower_code(text@[i + k]) == lower_code(pat@[k]),
        decreases m - j,
    {
        if lower_code_of(text[i + j]) != lower_code_of(pat[j]) {
            return false;
        }
        j += 1;
    }
    true
}

/// Whether the phrase `pat` matches anywhere in `text`.
pub fn phrase_match(text: &Vec<char>, pat: &Vec<char>) -> (r: bool)
    ensures
        r == phrase_matches(text@, pat@),
{
    let n = text.len();
    let m = pat.len();
    if m > n {
        return false;
    }
    if m == 0 {
        proof {
            assert(match_at(text@, pat@, 0));
        }
        return true;
    }
    let mut i: usize = 0;
    while i <= n - m
        invariant
            1 <= m <= n,
            i <= n - m + 1,
            n == text@.len(),
            m == pat@.len(),
            forall|k: int| 0 <= k < i ==> !match_at(text@, pat@, k),
        decreases n - i,
    {
        if match_here(text, pat, i) {
            return true;
        }
        i += 1;
    }
    proof {
        assert forall|k: int| !match_at(text@, pat@, k) by {
            if k >= i {
                assert(k + pat@.len() > text@.len());
            }
        }
    }
    false
}

} // verus!
