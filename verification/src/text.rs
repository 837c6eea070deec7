//! Character classification and whitespace trimming over text.
//!
//! Classification of the ASCII range is spelled out; what the Unicode
//! tables say about higher code points is left behind uninterpreted
//! residues, so nothing is claimed about them beyond what the standard
//! library computes.

use vstd::prelude::*;
use vstd::string::*;

verus! {

/// What `char::is_whitespace` returns on code points outside ASCII.
pub uninterp spec fn ws_exotic(c: char) -> bool;

/// What `char::is_alphabetic` returns on code points outside ASCII.
pub uninterp spec fn alpha_exotic(c: char) -> bool;

/// Every character of the text is in the ASCII range.
pub open spec fn ascii_text(s: Seq<char>) -> bool {
    forall|i: int| 0 <= i < s.len() ==> (s[i] as u32) < 0x80
}

/// Whitespace as the standard library classifies it: the six ASCII
/// whitespace code points, and the Unicode table above ASCII.
pub open spec fn ws_like(c: char) -> bool {
    if (c as u32) < 0x80 {
        c == ' ' || c == '\t' || c == '\n' || c == '\r' || c as u32 == 0x0b || c as u32 == 0x0c
    } else {
        ws_exotic(c)
    }
}

/// Alphabetic as the standard library classifies it: ASCII letters,
/// and the Unicode table above ASCII.
pub open spec fn alpha_like(c: char) -> bool {
    if (c as u32) < 0x80 {
        ('a' as u32 <= c as u32 && c as u32 <= 'z' as u32) || ('A' as u32 <= c as u32 && c as u32
            <= 'Z' as u32)
    } else {
        alpha_exotic(c)
    }
}

/// Relies on `char::is_whitespace`: within ASCII the `White_Space`
/// property holds exactly of tab, line feed, vertical tab, form feed,
/// carriage return and space.
#[verifier::external_body]
pub fn char_is_whitespace(c: char) -> (r: bool)
    ensures
        r == ws_like(c),
        c as u32 >= 0x80 ==> r == ws_exotic(c),
{
    c.is_whitespace()
}

/// Relies on `char::is_alphabetic`: within ASCII the `Alphabetic`
/// property holds exactly of the letters `a`-`z` and `A`-`Z`.
#[verifier::external_body]
pub fn char_is_alphabetic(c: char) -> (r: bool)
    ensures
        r == alpha_like(c),
        c as u32 >= 0x80 ==> r == alpha_exotic(c),
{
    c.is_alphabetic()
}

/// Index of the first non-whitespace character, or the length if none.
pub open spec fn trim_start_idx(s: Seq<char>) -> int
    decreases s.len(),
{
    if s.len() == 0 {
        0
    } else if ws_like(s[0]) {
        1 + trim_start_idx(s.drop_first())
    } else {
        0
    }
}

/// Length of the text once trailing whitespace is removed.
pub open spec fn trim_end_len(s: Seq<char>) -> int
    decreases s.len(),
{
    if s.len() == 0 {
        0
    } else if ws_like(s[s.len() - 1]) {
        trim_end_len(s.drop_last())
    } else {
        s.len() as int
    }
}

pub open spec fn spec_trim_start(s: Seq<char>) -> Seq<char> {
    s.subrange(trim_start_idx(s), s.len() as int)
}

pub open spec fn spec_trim_end(s: Seq<char>) -> Seq<char> {
    s.subrange(0, trim_end_len(s))
}

pub open spec fn spec_trim(s: Seq<char>) -> Seq<char> {
    spec_trim_end(spec_trim_start(s))
}

/// The first index with the given shape is the trim index.
pub proof fn lemma_trim_start_idx_is(s: Seq<char>, i: int)
    requires
        0 <= i <= s.len(),
        forall|j: int| 0 <= j < i ==> ws_like(s[j]),
        i < s.len() ==> !ws_like(s[i]),
    ensures
        trim_start_idx(s) == i,
    decreases s.len(),
{
    if s.len() == 0 {
    } else if i == 0 {
    } else {
        assert(ws_like(s[0]));
        assert(forall|j: int| 0 <= j < i - 1 ==> s.drop_first()[j] == s[j + 1]);
        assert(i - 1 < s.drop_first().len() ==> s.drop_first()[i - 1] == s[i]);
        lemma_trim_start_idx_is(s.drop_first(), i - 1);
    }
}

pub proof fn lemma_trim_end_len_bounds(s: Seq<char>)
    ensures
        0 <= trim_end_len(s) <= s.len(),
        forall|j: int| trim_end_len(s) <= j < s.len() ==> ws_like(s[j]),
        trim_end_len(s) > 0 ==> !ws_like(s[trim_end_len(s) - 1]),
    decreases s.len(),
{
    if s.len() == 0 {
    } else if ws_like(s[s.len() - 1]) {
        lemma_trim_end_len_bounds(s.drop_last());
        assert(forall|j: int|
            trim_end_len(s.drop_last()) <= j < s.drop_last().len() ==> s.drop_last()[j] == s[j]);
    }
}

/// The last index with the given shape is the trimmed length.
pub proof fn lemma_trim_end_len_is(s: Seq<char>, n: int)
    requires
        0 <= n <= s.len(),
        forall|j: int| n <= j < s.len() ==> ws_like(s[j]),
        n > 0 ==> !ws_like(s[n - 1]),
    ensures
        trim_end_len(s) == n,
    decreases s.len(),
{
    if s.len() == 0 {
    } else if n == s.len() {
    } else {
        assert(ws_like(s[s.len() - 1]));
        assert(forall|j: int| n <= j < s.drop_last().len() ==> s.drop_last()[j] == s[j]);
        assert(n > 0 ==> s.drop_last()[n - 1] == s[n - 1]);
        lemma_trim_end_len_is(s.drop_last(), n);
    }
}

/// Lexicographic order on text by code point, from position `i` on.
pub open spec fn lex_lt_from(a: Seq<char>, b: Seq<char>, i: int) -> bool
    decreases b.len() - i,
{
    if i >= b.len() {
        false
    } else if i >= a.len() {
        true
    } else if (a[i] as u32) < (b[i] as u32) {
        true
    } else if a[i] == b[i] {
        lex_lt_from(a, b, i + 1)
    } else {
        false
    }
}

/// Strict lexicographic order on text by code point.
pub open spec fn lex_lt(a: Seq<char>, b: Seq<char>) -> bool {
    lex_lt_from(a, b, 0)
}

/// The order is total: two texts neither of which precedes the other
/// are equal.
pub proof fn lemma_lex_total(a: Seq<char>, b: Seq<char>)
    ensures
        !lex_lt(a, b) && !lex_lt(b, a) ==> a == b,
{
    lemma_lex_total_from(a, b, 0);
}

proof fn lemma_lex_total_from(a: Seq<char>, b: Seq<char>, i: int)
    requires
        0 <= i,
        forall|t: int| 0 <= t < i ==> (t < a.len() && t < b.len() && a[t] == b[t]),
        i <= a.len(),
        i <= b.len(),
    ensures
        !lex_lt_from(a, b, i) && !lex_lt_from(b, a, i) ==> a == b,
    decreases b.len() - i,
{
    if i >= b.len() {
        if !lex_lt_from(b, a, i) {
            assert(i >= a.len());
            if i == a.len() && i == b.len() {
                assert(a =~= b);
            }
        }
    } else if i >= a.len() {
    } else if a[i] == b[i] {
        lemma_lex_total_from(a, b, i + 1);
    } else {
        if (a[i] as u32) == (b[i] as u32) {
            vstd::utf8::char_u32_cast(a[i], a[i] as u32);
            vstd::utf8::char_u32_cast(b[i], b[i] as u32);
        }
    }
}

/// The order is transitive.
pub proof fn lemma_lex_trans(a: Seq<char>, b: Seq<char>, c: Seq<char>)
    requires
        lex_lt(a, b),
        lex_lt(b, c),
    ensures
        lex_lt(a, c),
{
    lemma_lex_trans_from(a, b, c, 0);
}

proof fn lemma_lex_trans_from(a: Seq<char>, b: Seq<char>, c: Seq<char>, i: int)
    requires
        0 <= i,
        lex_lt_from(a, b, i),
        lex_lt_from(b, c, i),
    ensures
        lex_lt_from(a, c, i),
    decreases c.len() - i,
{
    if i >= b.len() {
    } else if i >= a.len() {
    } else if a[i] == b[i] && b[i] == c[i] {
        lemma_lex_trans_from(a, b, c, i + 1);
    }
}

/// The order is asymmetric.
pub proof fn lemma_lex_asym(a: Seq<char>, b: Seq<char>)
    requires
        lex_lt(a, b),
    ensures
        !lex_lt(b, a),
{
    if lex_lt(b, a) {
        lemma_lex_trans(a, b, a);
        lemma_lex_irrefl(a);
    }
}

/// The order is irreflexive.
pub proof fn lemma_lex_irrefl(a: Seq<char>)
    ensures
        !lex_lt(a, a),
{
    lemma_lex_irrefl_from(a, 0);
}

proof fn lemma_lex_irrefl_from(a: Seq<char>, i: int)
    requires
        0 <= i,
    ensures
        !lex_lt_from(a, a, i),
    decreases a.len() - i,
{
    if i < a.len() {
        lemma_lex_irrefl_from(a, i + 1);
    }
}

/// Compare two texts in the lexicographic code-point order.
pub fn str_lex_lt(a: &str, b: &str) -> (r: bool)
    ensures
        r == lex_lt(a@, b@),
{
    let na: usize = a.unicode_len();
    let nb: usize = b.unicode_len();
    let mut i: usize = 0;
    while i < na && i < nb
        invariant
            i <= na,
            i <= nb,
            na == a@.len(),
            nb == b@.len(),
            lex_lt_from(a@, b@, 0) == lex_lt_from(a@, b@, i as int),
        decreases na - i,
    {
        let ca = a.get_char(i);
        let cb = b.get_char(i);
        if (ca as u32) < (cb as u32) {
            return true;
        }
        if ca != cb {
            return false;
        }
        i = i + 1;
    }
    i < nb
}

/// Whether two pieces of text hold the same characters.
pub fn str_eq(a: &str, b: &str) -> (r: bool)
    ensures
        r == (a@ == b@),
{
    let na: usize = a.unicode_len();
    let nb: usize = b.unicode_len();
    if na != nb {
        return false;
    }
    let mut i: usize = 0;
    while i < na
        invariant
            i <= na,
            na == a@.len(),
            nb == b@.len(),
            na == nb,
            forall|t: int| 0 <= t < i ==> a@[t] == b@[t],
        decreases na - i,
    {
        if a.get_char(i) != b.get_char(i) {
            return false;
        }
        i = i + 1;
    }
    proof {
        assert(a@ =~= b@);
    }
    true
}

/// Text with leading whitespace removed, as `str::trim_start` computes it.
pub fn trim_start_str(s: &str) -> (r: &str)
    ensures
        r@ == spec_trim_start(s@),
{
    let n: usize = s.unicode_len();
    let mut i: usize = 0;
    while i < n && char_is_whitespace(s.get_char(i))
        invariant
            i <= n,
            n == s@.len(),
            forall|j: int| 0 <= j < i ==> ws_like(s@[j]),
        decreases n - i,
    {
        i = i + 1;
    }
    proof {
        lemma_trim_start_idx_is(s@, i as int);
    }
    s.substring_char(i, n)
}

/// Text with trailing whitespace removed, as `str::trim_end` computes it.
pub fn trim_end_str(s: &str) -> (r: &str)
    ensures
        r@ == spec_trim_end(s@),
{
    let n: usize = s.unicode_len();
    let mut m: usize = n;
    while m > 0 && char_is_whitespace(s.get_char(m - 1))
        invariant
            m <= n,
            n == s@.len(),
            forall|j: int| m <= j < n ==> ws_like(s@[j]),
        decreases m,
    {
        m = m - 1;
    }
    proof {
        lemma_trim_end_len_is(s@, m as int);
    }
    s.substring_char(0, m)
}

/// Text with whitespace removed from both ends, as `str::trim` computes it.
pub fn trim_str(s: &str) -> (r: &str)
    ensures
        r@ == spec_trim(s@),
{
    trim_end_str(trim_start_str(s))
}

} // verus!
