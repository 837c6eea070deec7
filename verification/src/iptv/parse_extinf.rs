//! Interpretation of an extended-info line with an IPTV attribute
//! list: the duration up to the first space or comma, then quoted
//! `key="value"` attributes up to the comma before the display name.
//!
//! A value may itself contain unescaped quotes and commas; the
//! boundaries come from the quote-role scan in the splitting module.
//! Any structural failure fails the whole interpretation.

use vstd::prelude::*;
use vstd::string::*;

use super::iptv_props::{props_insert, IptvProps};
use super::{IptvExtInf, IptvExtInfView};
use crate::numtext::{is_num_text, spec_num_text};
use crate::read::split::{
    attr_list_text, attr_start_pos, eq_free, lemma_attr_at, lemma_attr_text_index,
    lemma_next_closing_at_attr, lemma_scan_closing_bounds, lemma_split_attr,
    next_closing_mark_index, quote_free, spec_next_closing, spec_split_key_val, split_key_val,
    wf_attr_key,
};

verus! {

/// First index at or after `i` holding a comma or a space, or the
/// length of the text.
pub open spec fn find_sep(s: Seq<char>, i: int) -> int
    decreases s.len() - i,
{
    if !(0 <= i < s.len()) {
        s.len() as int
    } else if s[i] == ',' || s[i] == ' ' {
        i
    } else {
        find_sep(s, i + 1)
    }
}

pub proof fn lemma_find_sep_is(s: Seq<char>, start: int, j: int)
    requires
        0 <= start <= j <= s.len(),
        forall|t: int| start <= t < j ==> !(s[t] == ',' || s[t] == ' '),
        j < s.len() ==> (s[j] == ',' || s[j] == ' '),
    ensures
        find_sep(s, start) == j,
    decreases j - start,
{
    if start < j {
        assert(!(s[start] == ',' || s[start] == ' '));
        lemma_find_sep_is(s, start + 1, j);
    }
}

/// Collect the attribute pairs of the list, walking from one closing
/// quotation mark to the next. A piece that does not split as
/// `key="value"` fails the whole interpretation; otherwise the walk
/// ends where no closing mark remains, with the offset of the last
/// boundary.
pub open spec fn spec_collect_props(
    s: Seq<char>,
    offset: int,
    acc: Seq<(Seq<char>, Seq<char>)>,
) -> Option<(Seq<(Seq<char>, Seq<char>)>, int)>
    decreases s.len() - offset,
    when 0 <= offset
    via spec_collect_props_dec
{
    match spec_next_closing(s, offset) {
        None => Some((acc, offset)),
        Some(e) => match spec_split_key_val(s.subrange(offset, e + 1)) {
            None => None,
            Some(kv) => spec_collect_props(s, e + 1, props_insert(acc, kv.0, kv.1)),
        },
    }
}

#[via_fn]
proof fn spec_collect_props_dec(s: Seq<char>, offset: int, acc: Seq<(Seq<char>, Seq<char>)>) {
    lemma_scan_closing_bounds(s, offset, false);
}

/// How an extended-info line is interpreted: the text after the tag
/// is cut at the first space or comma into the duration and the
/// attribute section; the attributes are collected between closing
/// quotation marks; the rest, after one leading comma or space, is
/// the display name. The duration must be decimal text; any
/// structural failure yields `None`.
pub open spec fn spec_parse_extinf(line: Seq<char>) -> Option<IptvExtInfView> {
    if line.len() < 8 {
        None
    } else {
        let rest = line.subrange(8, line.len() as int);
        let sep = find_sep(rest, 0);
        if sep >= rest.len() {
            None
        } else {
            let duration = rest.subrange(0, sep);
            let tail = rest.subrange(sep, rest.len() as int);
            match spec_collect_props(tail, 0, Seq::empty()) {
                None => None,
                Some(pr) => {
                    if spec_num_text(duration) {
                        let name = if pr.1 + 1 <= tail.len() {
                            tail.subrange(pr.1 + 1, tail.len() as int)
                        } else {
                            Seq::empty()
                        };
                        Some(
                            IptvExtInfView {
                                duration_secs: duration,
                                name,
                                iptv_props: pr.0,
                            },
                        )
                    } else {
                        None
                    }
                },
            }
        }
    }
}

/// An extended-info structure whose serialized line is unambiguous to
/// the interpreter: the duration is decimal text without a comma or a
/// space, keys are ASCII letters and hyphens in strictly increasing
/// order, and no value embeds a quotation mark or an equals sign.
pub open spec fn wf_serialized_extinf(x: IptvExtInfView) -> bool {
    &&& spec_num_text(x.duration_secs)
    &&& forall|i: int|
        0 <= i < x.duration_secs.len() ==> !(x.duration_secs[i] == ',' || x.duration_secs[i]
            == ' ')
    &&& crate::iptv::iptv_props::props_sorted(x.iptv_props)
    &&& forall|t: int|
        0 <= t < x.iptv_props.len() ==> wf_attr_key(#[trigger] x.iptv_props[t].0)
            && crate::text::ascii_text(x.iptv_props[t].0)
    &&& forall|t: int|
        0 <= t < x.iptv_props.len() ==> quote_free(#[trigger] x.iptv_props[t].1) && eq_free(
            x.iptv_props[t].1,
        )
}

/// Collecting the attributes of a serialized list, from attribute `i`
/// on, finishes the whole mapping and stops at the comma before the
/// name.
proof fn lemma_collect_on_list(kvs: Seq<(Seq<char>, Seq<char>)>, name: Seq<char>, i: int)
    requires
        0 <= i <= kvs.len(),
        crate::iptv::iptv_props::props_sorted(kvs),
        forall|t: int|
            0 <= t < kvs.len() ==> wf_attr_key(#[trigger] kvs[t].0) && crate::text::ascii_text(
                kvs[t].0,
            ),
        forall|t: int|
            0 <= t < kvs.len() ==> quote_free(#[trigger] kvs[t].1) && eq_free(kvs[t].1),
    ensures
        spec_collect_props(attr_list_text(kvs, name), attr_start_pos(kvs, i), kvs.take(i)) == Some(
            (kvs, crate::iptv::iptv_props::spec_props_text(kvs).len() as int),
        ),
    decreases kvs.len() - i,
{
    let s = attr_list_text(kvs, name);
    let whole = crate::iptv::iptv_props::spec_props_text(kvs);
    if i == kvs.len() {
        assert(kvs.take(i) =~= kvs);
        assert(attr_start_pos(kvs, i) == whole.len());
        assert(s[whole.len() as int] == ',') by {
            assert(s == whole + seq![','] + name);
            assert(((whole + seq![',']) + name)[whole.len() as int] == ',');
        }
        assert(spec_next_closing(s, whole.len() as int) is None);
    } else {
        let k = kvs[i].0;
        let v = kvs[i].1;
        let a = crate::iptv::iptv_props::attr_text(k, v);
        let start = attr_start_pos(kvs, i);
        let close = crate::read::split::close_quote_pos(kvs, i);
        lemma_next_closing_at_attr(kvs, name, i);
        lemma_attr_at(kvs, name, i);
        assert(s.subrange(start, close + 1) =~= a);
        lemma_split_attr(k, v);
        assert(spec_split_key_val(s.subrange(start, close + 1)) == Some((k, v)));
        assert(crate::iptv::iptv_props::props_insert(kvs.take(i), k, v) == kvs.take(i).push(
            (k, v),
        )) by {
            assert(forall|t: int|
                0 <= t < i ==> crate::text::lex_lt(#[trigger] kvs.take(i)[t].0, k));
            crate::iptv::iptv_props::lemma_props_insert_append(kvs.take(i), k, v);
        }
        assert(kvs.take(i).push((k, v)) =~= kvs.take(i + 1));
        crate::iptv::iptv_props::lemma_props_text_snoc(kvs, i);
        assert(attr_start_pos(kvs, i + 1) == start + a.len());
        assert(close + 1 == start + a.len());
        lemma_collect_on_list(kvs, name, i + 1);
    }
}

/// A serialized extended-info line parses back to exactly its
/// structured form: the interpreter is a left inverse of the
/// serializer on unambiguous structures.
pub proof fn lemma_parse_of_serialized(x: IptvExtInfView)
    requires
        wf_serialized_extinf(x),
    ensures
        spec_parse_extinf(crate::iptv::spec_extinf_text(x)) == Some(x),
{
    let dur = x.duration_secs;
    let name = x.name;
    let kvs = x.iptv_props;
    let props_text = crate::iptv::iptv_props::spec_props_text(kvs);
    let line = crate::iptv::spec_extinf_text(x);
    reveal_strlit("#EXTINF:");
    assert("#EXTINF:"@.len() == 8);
    assert(line.len() >= 8 + dur.len());
    let rest = line.subrange(8, line.len() as int);
    assert(rest =~= dur + props_text + seq![','] + name) by {
        assert(line == "#EXTINF:"@ + dur + props_text + seq![','] + name);
        assert(forall|u: int|
            0 <= u < rest.len() ==> rest[u] == (dur + props_text + seq![','] + name)[u]);
    }
    let tail_start = dur.len() as int;
    assert(find_sep(rest, 0) == tail_start) by {
        assert(forall|t: int| 0 <= t < tail_start ==> rest[t] == dur[t]);
        assert(rest[tail_start] == ',' || rest[tail_start] == ' ') by {
            if kvs.len() == 0 {
                assert(props_text =~= Seq::<char>::empty());
                assert(rest[tail_start] == ((dur + props_text + seq![',']) + name)[tail_start]);
            } else {
                assert(props_text == crate::iptv::iptv_props::attr_text(kvs[0].0, kvs[0].1)
                    + crate::iptv::iptv_props::spec_props_text(kvs.drop_first()));
                lemma_attr_text_index(kvs[0].0, kvs[0].1);
                assert(props_text[0] == ' ');
                assert(rest[tail_start] == props_text[0]);
            }
        }
        lemma_find_sep_is(rest, 0, tail_start);
    }
    assert(tail_start < rest.len());
    let duration = rest.subrange(0, tail_start);
    assert(duration =~= dur);
    let tail = rest.subrange(tail_start, rest.len() as int);
    assert(tail =~= attr_list_text(kvs, name));
    assert(kvs.take(0) =~= Seq::<(Seq<char>, Seq<char>)>::empty());
    assert(attr_start_pos(kvs, 0) == 0) by {
        assert(crate::iptv::iptv_props::spec_props_text(kvs.take(0)) =~= Seq::<char>::empty());
    }
    lemma_collect_on_list(kvs, name, 0);
    assert(spec_collect_props(tail, 0, Seq::empty()) == Some((kvs, props_text.len() as int)));
    let offset = props_text.len() as int;
    assert(offset + 1 <= tail.len());
    assert(tail.subrange(offset + 1, tail.len() as int) =~= name);
    assert(spec_parse_extinf(line) == Some(x));
}

/// Whether the character at `i` separates the duration from what
/// follows: a comma or a space.
fn sep_char_at(s: &str, i: usize) -> (r: bool)
    requires
        i < s@.len(),
    ensures
        r == (s@[i as int] == ',' || s@[i as int] == ' '),
{
    let c = s.get_char(i);
    c == ',' || c == ' '
}

/// The text after the fixed-length tag, or `None` when the line is
/// shorter than the tag.
fn drop_extinf_tag<'a>(line: &'a str) -> (r: Option<&'a str>)
    ensures
        r is Some <==> line@.len() >= 8,
        r matches Some(t) ==> t@ == line@.subrange(8, line@.len() as int),
{
    let n: usize = line.unicode_len();
    if n < 8 {
        None
    } else {
        Some(line.substring_char(8, n))
    }
}

/// Interpret an extended-info line.
///
/// Example: `#EXTINF:-1 tvg-id="" tvg-name="TF1",TF1` has duration
/// text `-1`, name `TF1`, and the attributes `tvg-id` (empty) and
/// `tvg-name` (`TF1`).
pub fn parse_extinf(line: &str) -> (r: Option<IptvExtInf>)
    ensures
        r is Some <==> spec_parse_extinf(line@) is Some,
        r matches Some(x) ==> spec_parse_extinf(line@) == Some(x@),
        r matches Some(x) ==> x.iptv_props.wf(),
{
    let rest = match drop_extinf_tag(line) {
        None => {
            return None;
        },
        Some(t) => t,
    };
    let rn: usize = rest.unicode_len();
    let mut sep: usize = 0;
    while sep < rn && !sep_char_at(rest, sep)
        invariant
            sep <= rn,
            rn == rest@.len(),
            forall|t: int| 0 <= t < sep ==> !(rest@[t] == ',' || rest@[t] == ' '),
        decreases rn - sep,
    {
        sep = sep + 1;
    }
    proof {
        lemma_find_sep_is(rest@, 0, sep as int);
    }
    if sep >= rn {
        return None;
    }
    let duration_str = rest.substring_char(0, sep);
    let tail = rest.substring_char(sep, rn);
    let tn: usize = tail.unicode_len();

    let mut props = IptvProps::new();
    let mut offset: usize = 0;
    loop
        invariant
            offset <= tn,
            tn == tail@.len(),
            line@.len() >= 8,
            rest@ == line@.subrange(8, line@.len() as int),
            rn == rest@.len(),
            sep as int == find_sep(rest@, 0),
            sep < rn,
            tail@ == rest@.subrange(sep as int, rn as int),
            props.wf(),
            spec_collect_props(tail@, 0, Seq::empty()) == spec_collect_props(
                tail@,
                offset as int,
                props@,
            ),
        ensures
            offset <= tn,
            props.wf(),
            spec_collect_props(tail@, 0, Seq::empty()) == Some((props@, offset as int)),
        decreases tn - offset,
    {
        match next_closing_mark_index(tail, offset) {
            None => {
                break ;
            },
            Some(e) => {
                proof {
                    lemma_scan_closing_bounds(tail@, offset as int, false);
                }
                let prop_str = tail.substring_char(offset, e + 1);
                match split_key_val(prop_str) {
                    None => {
                        return None;
                    },
                    Some(kv) => {
                        props.insert(String::from_str(kv.0), String::from_str(kv.1));
                        offset = e + 1;
                    },
                }
            },
        }
    }
    if !is_num_text(duration_str) {
        return None;
    }
    let name = if offset + 1 <= tn {
        tail.substring_char(offset + 1, tn)
    } else {
        ""
    };
    proof {
        reveal_strlit("");
        assert(""@ =~= Seq::<char>::empty());
    }
    Some(IptvExtInf {
        duration_secs: String::from_str(duration_str),
        name: String::from_str(name),
        iptv_props: props,
    })
}

} // verus!
