//! Attribute-list splitting: pairing quotes, classifying the role a
//! quotation mark plays, and cutting a `key="value"` piece apart.
//!
//! Values may contain unescaped quotes and commas, so whether a quote
//! closes its value is guessed from what follows it: the end of the
//! line, the start of another attribute, or the comma before the
//! display name.

use vstd::prelude::*;
use vstd::string::*;

use crate::text::{
    alpha_like, char_is_alphabetic, char_is_whitespace, lemma_trim_end_len_bounds,
    lemma_trim_end_len_is, spec_trim, trim_end_len, trim_str,
};

verus! {

/// The role a quotation mark plays inside an attribute list.
#[derive(Debug, Clone, Copy, PartialEq, Eq, Structural)]
pub enum QuotationMarkRole {
    /// Ends a value and is followed by another attribute or the end of
    /// the line.
    CLOSING,
    /// A literal quote inside a value.
    INNER,
    /// Ends a value and is followed by the comma before the name.
    ENDING,
}

/// First index at or after `i` that does not hold a space, or the
/// length of the text.
pub open spec fn after_spaces(s: Seq<char>, i: int) -> int
    decreases s.len() - i,
{
    if !(0 <= i < s.len()) {
        s.len() as int
    } else if s[i] == ' ' {
        after_spaces(s, i + 1)
    } else {
        i
    }
}

pub proof fn lemma_after_spaces_is(s: Seq<char>, start: int, j: int)
    requires
        0 <= start <= j <= s.len(),
        forall|t: int| start <= t < j ==> s[t] == ' ',
        j < s.len() ==> s[j] != ' ',
    ensures
        after_spaces(s, start) == j,
    decreases j - start,
{
    if start < j {
        assert(s[start] == ' ');
        lemma_after_spaces_is(s, start + 1, j);
    }
}

/// First index at or after `i` that does not hold a key character (a
/// letter or a hyphen), or the length of the text.
pub open spec fn after_key(s: Seq<char>, i: int) -> int
    decreases s.len() - i,
{
    if !(0 <= i < s.len()) {
        s.len() as int
    } else if alpha_like(s[i]) || s[i] == '-' {
        after_key(s, i + 1)
    } else {
        i
    }
}

pub proof fn lemma_after_key_is(s: Seq<char>, start: int, j: int)
    requires
        0 <= start <= j <= s.len(),
        forall|t: int| start <= t < j ==> (alpha_like(s[t]) || s[t] == '-'),
        j < s.len() ==> !(alpha_like(s[j]) || s[j] == '-'),
    ensures
        after_key(s, start) == j,
    decreases j - start,
{
    if start < j {
        assert(alpha_like(s[start]) || s[start] == '-');
        lemma_after_key_is(s, start + 1, j);
    }
}

/// The role of the quotation mark at index `i`: `CLOSING` when it is
/// the last non-whitespace character or is followed by spaces, a key
/// and `="`; `ENDING` when a comma follows immediately; `INNER`
/// otherwise.
pub open spec fn spec_quote_role(s: Seq<char>, i: int) -> QuotationMarkRole {
    if i + 1 == trim_end_len(s) {
        QuotationMarkRole::CLOSING
    } else if i + 1 < s.len() && s[i + 1] == ',' {
        QuotationMarkRole::ENDING
    } else if !(i + 1 < s.len() && s[i + 1] == ' ') {
        QuotationMarkRole::INNER
    } else {
        let j = after_spaces(s, i + 2);
        if j < s.len() && alpha_like(s[j]) {
            let k = after_key(s, j + 1);
            if k + 1 < s.len() && s[k] == '=' && s[k + 1] == '"' {
                QuotationMarkRole::CLOSING
            } else {
                QuotationMarkRole::INNER
            }
        } else {
            QuotationMarkRole::INNER
        }
    }
}

/// Classify the quotation mark at character index `offset`.
pub fn is_closing_mark(s: &str, offset: usize) -> (r: QuotationMarkRole)
    requires
        offset < s@.len(),
    ensures
        r == spec_quote_role(s@, offset as int),
{
    let n: usize = s.unicode_len();
    let mut m: usize = n;
    while m > 0 && char_is_whitespace(s.get_char(m - 1))
        invariant
            m <= n,
            n == s@.len(),
            forall|j: int| m <= j < n ==> crate::text::ws_like(s@[j]),
        decreases m,
    {
        m = m - 1;
    }
    proof {
        lemma_trim_end_len_is(s@, m as int);
    }
    if offset + 1 == m {
        return QuotationMarkRole::CLOSING;
    }
    if offset + 1 >= n {
        return QuotationMarkRole::INNER;
    }
    let c1 = s.get_char(offset + 1);
    if c1 == ',' {
        return QuotationMarkRole::ENDING;
    }
    if c1 != ' ' {
        return QuotationMarkRole::INNER;
    }
    let mut j: usize = offset + 2;
    while j < n && s.get_char(j) == ' '
        invariant
            offset + 2 <= j <= n,
            n == s@.len(),
            forall|t: int| offset + 2 <= t < j ==> s@[t] == ' ',
        decreases n - j,
    {
        j = j + 1;
    }
    proof {
        lemma_after_spaces_is(s@, offset + 2, j as int);
    }
    if j < n && char_is_alphabetic(s.get_char(j)) {
        let mut k: usize = j + 1;
        while k < n && (char_is_alphabetic(s.get_char(k)) || s.get_char(k) == '-')
            invariant
                j + 1 <= k <= n,
                n == s@.len(),
                forall|t: int| j + 1 <= t < k ==> (alpha_like(s@[t]) || s@[t] == '-'),
            decreases n - k,
        {
            k = k + 1;
        }
        proof {
            lemma_after_key_is(s@, j as int + 1, k as int);
        }
        if k < n && s.get_char(k) == '=' && k + 1 < n && s.get_char(k + 1) == '"' {
            QuotationMarkRole::CLOSING
        } else {
            QuotationMarkRole::INNER
        }
    } else {
        QuotationMarkRole::INNER
    }
}

/// Scan for the next quotation mark that closes a value. Quotes
/// alternate between openers and candidate closers; a candidate that
/// classifies as `INNER` is literal content, and the pairing restarts
/// after it.
pub open spec fn spec_scan_closing(s: Seq<char>, i: int, candidate: bool) -> Option<int>
    decreases s.len() - i,
{
    if !(0 <= i < s.len()) {
        None
    } else if s[i] == '"' {
        if candidate {
            if spec_quote_role(s, i) != QuotationMarkRole::INNER {
                Some(i)
            } else {
                spec_scan_closing(s, i + 1, false)
            }
        } else {
            spec_scan_closing(s, i + 1, true)
        }
    } else {
        spec_scan_closing(s, i + 1, candidate)
    }
}

/// Index of the next closing quotation mark at or after `offset`, or
/// `None` when the attribute list ends there (a leading comma) or no
/// further pair closes.
pub open spec fn spec_next_closing(s: Seq<char>, offset: int) -> Option<int> {
    if 0 <= offset < s.len() && s[offset] == ',' {
        None
    } else {
        spec_scan_closing(s, offset, false)
    }
}

pub proof fn lemma_scan_closing_bounds(s: Seq<char>, i: int, candidate: bool)
    requires
        0 <= i,
    ensures
        spec_scan_closing(s, i, candidate) matches Some(e) ==> i <= e < s.len() && s[e] == '"'
            && spec_quote_role(s, e) != QuotationMarkRole::INNER,
    decreases s.len() - i,
{
    if 0 <= i < s.len() {
        lemma_scan_closing_bounds(s, i + 1, false);
        lemma_scan_closing_bounds(s, i + 1, true);
        lemma_scan_closing_bounds(s, i + 1, candidate);
    }
}

/// Find the next closing quotation mark at or after character index
/// `offset`.
pub fn next_closing_mark_index(s: &str, offset: usize) -> (r: Option<usize>)
    requires
        offset <= s@.len(),
    ensures
        r is Some <==> spec_next_closing(s@, offset as int) is Some,
        r matches Some(i) ==> spec_next_closing(s@, offset as int) == Some(i as int),
{
    let n: usize = s.unicode_len();
    if offset < n && s.get_char(offset) == ',' {
        return None;
    }
    let mut i: usize = offset;
    let mut candidate: bool = false;
    while i < n
        invariant
            offset <= i <= n,
            n == s@.len(),
            offset < n ==> s@[offset as int] != ',',
            spec_scan_closing(s@, offset as int, false) == spec_scan_closing(
                s@,
                i as int,
                candidate,
            ),
        decreases n - i,
    {
        if s.get_char(i) == '"' {
            if candidate {
                let role = is_closing_mark(s, i);
                if role != QuotationMarkRole::INNER {
                    proof {
                        assert(spec_scan_closing(s@, i as int, true) == Some(i as int));
                    }
                    return Some(i);
                }
                candidate = false;
            } else {
                candidate = true;
            }
        }
        i = i + 1;
    }
    None
}

/// A key as the quote-role scan expects one: a letter first, then
/// letters and hyphens.
pub open spec fn wf_attr_key(k: Seq<char>) -> bool {
    k.len() > 0 && alpha_like(k[0]) && forall|i: int|
        0 <= i < k.len() ==> (alpha_like(k[i]) || k[i] == '-')
}

/// The text holds no quotation mark.
pub open spec fn quote_free(v: Seq<char>) -> bool {
    forall|i: int| 0 <= i < v.len() ==> v[i] != '"'
}

/// A fully-quoted attribute list: the attributes one after the other,
/// then the comma and the display name.
pub open spec fn attr_list_text(kvs: Seq<(Seq<char>, Seq<char>)>, name: Seq<char>) -> Seq<char> {
    crate::iptv::iptv_props::spec_props_text(kvs) + seq![','] + name
}

/// The position of the quotation mark that closes the value of the
/// attribute at index `i` of the list.
pub open spec fn close_quote_pos(kvs: Seq<(Seq<char>, Seq<char>)>, i: int) -> int {
    crate::iptv::iptv_props::spec_props_text(kvs.take(i)).len() + kvs[i].0.len() as int
        + kvs[i].1.len() + 3
}

pub proof fn lemma_attr_text_index(k: Seq<char>, v: Seq<char>)
    ensures
        crate::iptv::iptv_props::attr_text(k, v).len() == k.len() + v.len() + 4,
        crate::iptv::iptv_props::attr_text(k, v)[0] == ' ',
        forall|t: int| 0 <= t < k.len() ==> crate::iptv::iptv_props::attr_text(k, v)[1 + t] == k[t],
        crate::iptv::iptv_props::attr_text(k, v)[1 + k.len() as int] == '=',
        crate::iptv::iptv_props::attr_text(k, v)[2 + k.len() as int] == '"',
        crate::iptv::iptv_props::attr_text(k, v)[k.len() + v.len() + 3int] == '"',
{
    let a = crate::iptv::iptv_props::attr_text(k, v);
    assert(a == seq![' '] + k + seq!['=', '"'] + v + seq!['"']);
    assert forall|t: int| 0 <= t < k.len() implies a[1 + t] == k[t] by {
        assert((seq![' '] + k)[1 + t] == k[t]);
    }
}

/// A quotation mark followed by a space and the head of a further
/// attribute (a key, an equals sign and an opening quote) classifies
/// as `CLOSING`.
proof fn lemma_role_before_attr(s: Seq<char>, c: int, k2: Seq<char>)
    requires
        0 <= c < s.len(),
        s[c] == '"',
        wf_attr_key(k2),
        c + 4 + k2.len() <= s.len(),
        s[c + 1] == ' ',
        forall|t: int| 0 <= t < k2.len() ==> s[c + 2 + t] == k2[t],
        s[c + 2 + k2.len()] == '=',
        s[c + 3 + k2.len()] == '"',
    ensures
        spec_quote_role(s, c) == QuotationMarkRole::CLOSING,
{
    if c + 1 == trim_end_len(s) {
    } else {
        let q = c + 2 + k2.len() as int;
        assert(s[c + 2] == k2[0]);
        assert(alpha_like(s[c + 2]));
        assert(s[c + 2] != ' ');
        lemma_after_spaces_is(s, c + 2, c + 2);
        assert forall|t: int| c + 3 <= t < q implies (alpha_like(s[t]) || s[t] == '-') by {
            assert(s[t] == k2[t - c - 2]);
        }
        assert(!(alpha_like(s[q]) || s[q] == '-'));
        lemma_after_key_is(s, c + 3, q);
        assert(spec_quote_role(s, c) == QuotationMarkRole::CLOSING);
    }
}

/// A quotation mark followed immediately by a comma classifies as
/// `ENDING`.
proof fn lemma_role_before_comma(s: Seq<char>, c: int)
    requires
        0 <= c,
        c + 1 < s.len(),
        s[c] == '"',
        s[c + 1] == ',',
    ensures
        spec_quote_role(s, c) == QuotationMarkRole::ENDING,
{
    lemma_trim_end_len_bounds(s);
    assert(trim_end_len(s) != c + 1) by {
        if trim_end_len(s) == c + 1 {
            assert(crate::text::ws_like(s[c + 1]));
        }
    }
}

/// In a well-formed, fully-quoted attribute list — space-separated
/// `key="value"` attributes, then a comma and the display name, with
/// keys of letters and hyphens and no quotation mark embedded in any
/// value — the quotation mark closing each value classifies as
/// `CLOSING` (another attribute follows) or `ENDING` (the comma
/// before the name follows), never as `INNER`.
pub proof fn lemma_wf_list_quote_roles(kvs: Seq<(Seq<char>, Seq<char>)>, name: Seq<char>, i: int)
    requires
        0 <= i < kvs.len(),
        forall|t: int| 0 <= t < kvs.len() ==> wf_attr_key(#[trigger] kvs[t].0),
        forall|t: int| 0 <= t < kvs.len() ==> quote_free(#[trigger] kvs[t].1),
    ensures
        attr_list_text(kvs, name)[close_quote_pos(kvs, i)] == '"',
        spec_quote_role(attr_list_text(kvs, name), close_quote_pos(kvs, i)) == (
        if i == kvs.len() - 1 {
            QuotationMarkRole::ENDING
        } else {
            QuotationMarkRole::CLOSING
        }),
{
    let s = attr_list_text(kvs, name);
    let k = kvs[i].0;
    let v = kvs[i].1;
    let a = crate::iptv::iptv_props::attr_text(k, v);
    let pre = crate::iptv::iptv_props::spec_props_text(kvs.take(i));
    let post = crate::iptv::iptv_props::spec_props_text(kvs.skip(i + 1));
    let whole = crate::iptv::iptv_props::spec_props_text(kvs);
    crate::iptv::iptv_props::lemma_props_text_split(kvs, i);
    assert(kvs.skip(i)[0] == kvs[i]);
    assert(kvs.skip(i).drop_first() =~= kvs.skip(i + 1));
    assert(crate::iptv::iptv_props::spec_props_text(kvs.skip(i)) == a + post);
    assert(whole == pre + (a + post));
    lemma_attr_text_index(k, v);
    let c = close_quote_pos(kvs, i);
    assert(c == pre.len() + a.len() - 1);
    assert forall|u: int| 0 <= u < a.len() implies s[pre.len() + u] == a[u] by {
        assert(whole[pre.len() + u] == (pre + (a + post))[pre.len() + u]);
        assert((a + post)[u] == a[u]);
        assert(s[pre.len() + u] == whole[pre.len() + u]);
    }
    assert(s[c] == a[a.len() - 1]);
    assert(s[c] == '"');
    if i == kvs.len() - 1 {
        assert(kvs.skip(i + 1) =~= Seq::<(Seq<char>, Seq<char>)>::empty());
        assert(post.len() == 0);
        assert(whole.len() == pre.len() + a.len());
        assert(s[c + 1] == seq![','][0]) by {
            assert(s == whole + seq![','] + name);
            assert(s[whole.len() as int] == (whole + seq![','] + name)[whole.len() as int]);
        }
        assert(s[c + 1] == ',');
        lemma_role_before_comma(s, c);
    } else {
        let k2 = kvs[i + 1].0;
        let v2 = kvs[i + 1].1;
        let a2 = crate::iptv::iptv_props::attr_text(k2, v2);
        let post2 = crate::iptv::iptv_props::spec_props_text(kvs.skip(i + 2));
        assert(kvs.skip(i + 1)[0] == kvs[i + 1]);
        assert(kvs.skip(i + 1).drop_first() =~= kvs.skip(i + 2));
        assert(post == a2 + post2);
        lemma_attr_text_index(k2, v2);
        assert(wf_attr_key(k2));
        let base = pre.len() + a.len();
        assert forall|u: int| 0 <= u < a2.len() implies s[base + u] == a2[u] by {
            assert(whole[base + u] == (pre + (a + post))[base + u]);
            assert((a + (a2 + post2))[a.len() + u] == a2[u]);
            assert((a + post)[a.len() + u] == a2[u]);
            assert(s[base + u] == whole[base + u]);
        }
        assert(base == c + 1);
        assert(s[c + 1] == a2[0]);
        assert(s[c + 1] == ' ');
        assert forall|t: int| 0 <= t < k2.len() implies s[c + 2 + t] == k2[t] by {
            assert(s[base + 1 + t] == a2[1 + t]);
        }
        assert(s[c + 2 + k2.len()] == a2[1 + k2.len() as int]);
        assert(s[c + 3 + k2.len()] == a2[2 + k2.len() as int]);
        assert(c + 4 + k2.len() <= s.len()) by {
            assert(a2.len() >= k2.len() + 4);
            assert(base + a2.len() <= whole.len());
            assert(whole.len() <= s.len());
        }
        lemma_role_before_attr(s, c, k2);
    }
}

/// The text holds no equals sign.
pub open spec fn eq_free(v: Seq<char>) -> bool {
    forall|i: int| 0 <= i < v.len() ==> v[i] != '='
}

/// The scan for a closing quotation mark passes over a quote-free
/// region unchanged.
proof fn lemma_scan_skip(s: Seq<char>, i: int, j: int, candidate: bool)
    requires
        0 <= i <= j <= s.len(),
        forall|t: int| i <= t < j ==> s[t] != '"',
    ensures
        spec_scan_closing(s, i, candidate) == spec_scan_closing(s, j, candidate),
    decreases j - i,
{
    if i < j {
        assert(s[i] != '"');
        lemma_scan_skip(s, i + 1, j, candidate);
    }
}

/// Where the attribute at index `i` begins in the list.
pub open spec fn attr_start_pos(kvs: Seq<(Seq<char>, Seq<char>)>, i: int) -> int {
    crate::iptv::iptv_props::spec_props_text(kvs.take(i)).len() as int
}

/// The characters of the attribute at index `i`, read off the whole
/// list.
pub proof fn lemma_attr_at(kvs: Seq<(Seq<char>, Seq<char>)>, name: Seq<char>, i: int)
    requires
        0 <= i < kvs.len(),
    ensures
        ({
            let s = attr_list_text(kvs, name);
            let a = crate::iptv::iptv_props::attr_text(kvs[i].0, kvs[i].1);
            let start = attr_start_pos(kvs, i);
            &&& start + a.len() <= crate::iptv::iptv_props::spec_props_text(kvs).len()
            &&& crate::iptv::iptv_props::spec_props_text(kvs).len() < s.len()
            &&& forall|u: int| 0 <= u < a.len() ==> s[start + u] == a[u]
        }),
{
    let s = attr_list_text(kvs, name);
    let a = crate::iptv::iptv_props::attr_text(kvs[i].0, kvs[i].1);
    let pre = crate::iptv::iptv_props::spec_props_text(kvs.take(i));
    let post = crate::iptv::iptv_props::spec_props_text(kvs.skip(i + 1));
    let whole = crate::iptv::iptv_props::spec_props_text(kvs);
    crate::iptv::iptv_props::lemma_props_text_split(kvs, i);
    assert(kvs.skip(i)[0] == kvs[i]);
    assert(kvs.skip(i).drop_first() =~= kvs.skip(i + 1));
    assert(crate::iptv::iptv_props::spec_props_text(kvs.skip(i)) == a + post);
    assert(whole == pre + (a + post));
    assert forall|u: int| 0 <= u < a.len() implies s[pre.len() + u] == a[u] by {
        assert(whole[pre.len() + u] == (pre + (a + post))[pre.len() + u]);
        assert((a + post)[u] == a[u]);
        assert(s[pre.len() + u] == whole[pre.len() + u]);
    }
}

/// At the start of an attribute of a well-formed, fully-quoted list,
/// the scan finds exactly the quotation mark that closes its value.
pub proof fn lemma_next_closing_at_attr(kvs: Seq<(Seq<char>, Seq<char>)>, name: Seq<char>, i: int)
    requires
        0 <= i < kvs.len(),
        forall|t: int| 0 <= t < kvs.len() ==> wf_attr_key(#[trigger] kvs[t].0),
        forall|t: int| 0 <= t < kvs.len() ==> quote_free(#[trigger] kvs[t].1),
    ensures
        spec_next_closing(attr_list_text(kvs, name), attr_start_pos(kvs, i)) == Some(
            close_quote_pos(kvs, i),
        ),
{
    let s = attr_list_text(kvs, name);
    let k = kvs[i].0;
    let v = kvs[i].1;
    let a = crate::iptv::iptv_props::attr_text(k, v);
    let start = attr_start_pos(kvs, i);
    let open = start + 2 + k.len() as int;
    let close = close_quote_pos(kvs, i);
    lemma_attr_at(kvs, name, i);
    lemma_attr_text_index(k, v);
    assert(s[start] == ' ');
    assert forall|t: int| start <= t < open implies s[t] != '"' by {
        let u = t - start;
        assert(s[t] == a[u]);
        if 1 <= u < 1 + k.len() {
            assert(a[u] == k[u - 1]);
            assert(alpha_like(k[u - 1]) || k[u - 1] == '-');
        }
    }
    lemma_scan_skip(s, start, open, false);
    assert(s[open] == a[2 + k.len() as int]);
    assert(s[open] == '"');
    assert forall|t: int| open + 1 <= t < close implies s[t] != '"' by {
        let u = t - start;
        assert(s[t] == a[u]);
        assert(a[u] == v[u - 3 - k.len()]);
    }
    lemma_scan_skip(s, open + 1, close, true);
    assert(s[close] == a[a.len() - 1]);
    assert(s[close] == '"');
    lemma_wf_list_quote_roles(kvs, name, i);
    assert(spec_scan_closing(s, close, true) == Some(close));
    assert(spec_scan_closing(s, start, false) == Some(close));
}

/// First index at or after `i` holding an equals sign, or the length
/// of the text.
pub open spec fn find_eq(s: Seq<char>, i: int) -> int
    decreases s.len() - i,
{
    if !(0 <= i < s.len()) {
        s.len() as int
    } else if s[i] == '=' {
        i
    } else {
        find_eq(s, i + 1)
    }
}

pub proof fn lemma_find_eq_is(s: Seq<char>, start: int, j: int)
    requires
        0 <= start <= j <= s.len(),
        forall|t: int| start <= t < j ==> s[t] != '=',
        j < s.len() ==> s[j] == '=',
    ensures
        find_eq(s, start) == j,
    decreases j - start,
{
    if start < j {
        assert(s[start] != '=');
        lemma_find_eq_is(s, start + 1, j);
    }
}

/// Splitting the exact text of one attribute recovers its key and
/// value, provided the key is ASCII (so that trimming cannot touch
/// it) and the value carries no equals sign of its own.
pub proof fn lemma_split_attr(k: Seq<char>, v: Seq<char>)
    requires
        wf_attr_key(k),
        crate::text::ascii_text(k),
        eq_free(v),
    ensures
        spec_split_key_val(crate::iptv::iptv_props::attr_text(k, v)) == Some((k, v)),
{
    let a = crate::iptv::iptv_props::attr_text(k, v);
    lemma_attr_text_index(k, v);
    let e1 = 1 + k.len() as int;
    assert forall|t: int| 0 <= t < e1 implies a[t] != '=' by {
        if t >= 1 {
            assert(a[t] == k[t - 1]);
            assert(alpha_like(k[t - 1]) || k[t - 1] == '-');
            assert((k[t - 1] as u32) < 0x80);
        }
    }
    lemma_find_eq_is(a, 0, e1);
    let e2 = a.len() as int;
    assert forall|t: int| e1 + 1 <= t < e2 implies a[t] != '=' by {
        let u = t - e1 - 1;
        if u == 0 {
            assert(a[t] == '"');
        } else if u <= v.len() {
            assert(a[t] == v[u - 1]);
        } else {
            assert(a[t] == '"');
        }
    }
    lemma_find_eq_is(a, e1 + 1, e2);
    assert(e2 - (e1 + 1) == v.len() + 2);
    assert(a.subrange(e1 + 2, e2 - 1) =~= v);
    let key_part = a.subrange(0, e1);
    assert(key_part =~= seq![' '] + k);
    assert(crate::text::spec_trim(key_part) == k) by {
        assert(crate::text::ws_like(key_part[0]));
        assert(!crate::text::ws_like(key_part[1])) by {
            assert(key_part[1] == k[0]);
            assert(alpha_like(k[0]) && (k[0] as u32) < 0x80);
        }
        crate::text::lemma_trim_start_idx_is(key_part, 1);
        assert(crate::text::spec_trim_start(key_part) =~= k);
        assert(!crate::text::ws_like(k[k.len() - 1])) by {
            assert(alpha_like(k[k.len() - 1]) || k[k.len() - 1] == '-');
            assert((k[k.len() - 1] as u32) < 0x80);
        }
        crate::text::lemma_trim_end_len_is(k, k.len() as int);
        assert(crate::text::spec_trim_end(k) =~= k);
    }
}

/// How `split_key_val` cuts one ` key="value"` piece apart: the key is
/// the trimmed text before the first `=`, the value loses its first
/// and last character and stops at a second `=` if one follows.
pub open spec fn spec_split_key_val(s: Seq<char>) -> Option<(Seq<char>, Seq<char>)> {
    let e1 = find_eq(s, 0);
    if e1 >= s.len() {
        None
    } else {
        let e2 = find_eq(s, e1 + 1);
        if e2 - (e1 + 1) < 2 {
            None
        } else {
            Some((spec_trim(s.subrange(0, e1)), s.subrange(e1 + 2, e2 - 1)))
        }
    }
}

/// Splits ` key="value"` to `(key, value)`, or `None` if malformed.
pub fn split_key_val<'a>(keyval: &'a str) -> (r: Option<(&'a str, &'a str)>)
    ensures
        r is Some <==> spec_split_key_val(keyval@) is Some,
        r matches Some(kv) ==> spec_split_key_val(keyval@) == Some((kv.0@, kv.1@)),
{
    let n: usize = keyval.unicode_len();
    let mut e1: usize = 0;
    while e1 < n && keyval.get_char(e1) != '='
        invariant
            e1 <= n,
            n == keyval@.len(),
            forall|t: int| 0 <= t < e1 ==> keyval@[t] != '=',
        decreases n - e1,
    {
        e1 = e1 + 1;
    }
    proof {
        lemma_find_eq_is(keyval@, 0, e1 as int);
    }
    if e1 >= n {
        return None;
    }
    let mut e2: usize = e1 + 1;
    while e2 < n && keyval.get_char(e2) != '='
        invariant
            e1 + 1 <= e2 <= n,
            n == keyval@.len(),
            forall|t: int| e1 + 1 <= t < e2 ==> keyval@[t] != '=',
        decreases n - e2,
    {
        e2 = e2 + 1;
    }
    proof {
        lemma_find_eq_is(keyval@, e1 as int + 1, e2 as int);
    }
    if e2 - (e1 + 1) < 2 {
        return None;
    }
    let key = trim_str(keyval.substring_char(0, e1));
    let val = keyval.substring_char(e1 + 2, e2 - 1);
    Some((key, val))
}

} // verus!
