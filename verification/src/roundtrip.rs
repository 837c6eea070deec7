//! The serializer is an inverse of the reader: writing records and
//! reading the text back yields an equal record sequence.

use vstd::prelude::*;

use crate::iptv::{record_eq, IptvEntryView};
use crate::read::{
    find_comma, find_nl, has_header, has_tag, header_chars, lemma_find_comma_is,
    lemma_find_nl_is, spec_header_scan, spec_next_entry, spec_next_ext, spec_read_all_ext,
    spec_read_entry, spec_read_extinf, spec_split_from, spec_split_lines, tag_chars,
};
use crate::read::iptv::{spec_next_iptv, spec_read_all_iptv};
use crate::numtext::spec_num_text;
use crate::text::{
    lemma_trim_start_idx_is, spec_trim, spec_trim_end, spec_trim_start, ws_like,
};
use crate::write::{spec_entry_line, spec_ext_tag_line, spec_header_text};
use crate::{url_host_ok, url_normal, EntryExtView, EntryView};

verus! {

/// The text holds no line feed.
pub open spec fn newline_free(s: Seq<char>) -> bool {
    forall|i: int| 0 <= i < s.len() ==> s[i] != '\n'
}

/// The single line an entry serializes to reads back as the same
/// entry: it is non-blank, opens with no `#`, carries no whitespace
/// at either end and no line feed, and a path must not itself parse
/// as a network location with a host, while a location must be in its
/// canonical form.
pub open spec fn entry_line_wf(e: EntryView) -> bool {
    let l = spec_entry_line(e);
    &&& l.len() > 0
    &&& l[0] != '#'
    &&& spec_trim_start(l) == l
    &&& spec_trim_end(l) == l
    &&& newline_free(l)
    &&& match e {
        EntryView::Path(p) => !url_host_ok(p),
        EntryView::Url(u) => url_host_ok(u) && url_normal(u) == Some(u),
    }
}

/// A record that writes to two lines which read back as an equal
/// record: the raw text opens with the tag, carries no surrounding
/// whitespace and no line feed, and its entry line reads back as the
/// same entry.
pub open spec fn wf_iptv_record(m: IptvEntryView) -> bool {
    &&& has_tag(m.raw_extinf)
    &&& spec_trim(m.raw_extinf) == m.raw_extinf
    &&& newline_free(m.raw_extinf)
    &&& entry_line_wf(m.entry)
}

/// The two lines one record serializes to.
pub open spec fn spec_iptv_record_lines(m: IptvEntryView) -> Seq<Seq<char>> {
    seq![m.raw_extinf, spec_entry_line(m.entry)]
}

/// The lines a record sequence serializes to.
pub open spec fn spec_iptv_lines(recs: Seq<IptvEntryView>) -> Seq<Seq<char>>
    decreases recs.len(),
{
    if recs.len() == 0 {
        Seq::empty()
    } else {
        spec_iptv_record_lines(recs[0]) + spec_iptv_lines(recs.drop_first())
    }
}

/// The text a record sequence serializes to, after the header: each
/// record contributes its raw tag line and its entry line, each
/// ended by a line feed.
pub open spec fn spec_iptv_text(recs: Seq<IptvEntryView>) -> Seq<char>
    decreases recs.len(),
{
    if recs.len() == 0 {
        Seq::empty()
    } else {
        recs[0].raw_extinf + seq!['\n'] + spec_entry_line(recs[0].entry) + seq!['\n']
            + spec_iptv_text(recs.drop_first())
    }
}

proof fn lemma_split_from_shift(pre: Seq<char>, rest: Seq<char>, i: int)
    requires
        0 <= i <= rest.len(),
    ensures
        spec_split_from(pre + rest, pre.len() + i) == spec_split_from(rest, i),
    decreases rest.len() - i,
{
    let s = pre + rest;
    if i >= rest.len() {
    } else {
        let j = find_nl(rest, i);
        crate::read::lemma_find_nl_bounds(rest, i);
        assert(find_nl(s, pre.len() + i) == pre.len() + j) by {
            assert(forall|t: int|
                pre.len() + i <= t < pre.len() + j ==> s[t] == rest[t - pre.len()]);
            assert(pre.len() + j < s.len() ==> s[pre.len() + j] == rest[j]);
            lemma_find_nl_is(s, pre.len() + i, pre.len() + j);
        }
        if j >= rest.len() {
            assert(s.subrange(pre.len() + i, s.len() as int) =~= rest.subrange(
                i,
                rest.len() as int,
            ));
        } else {
            assert(s.subrange(pre.len() + i, pre.len() + j) =~= rest.subrange(i, j));
            lemma_split_from_shift(pre, rest, j + 1);
        }
    }
}

/// Cutting one newline-terminated segment off the front of the text.
proof fn lemma_split_one(l: Seq<char>, rest: Seq<char>)
    requires
        newline_free(l),
    ensures
        spec_split_lines(l + seq!['\n'] + rest) == seq![l] + spec_split_lines(rest),
{
    let s = l + seq!['\n'] + rest;
    assert(find_nl(s, 0) == l.len()) by {
        lemma_find_nl_is(s, 0, l.len() as int);
    }
    assert(s.subrange(0, l.len() as int) =~= l);
    assert((l + seq!['\n']) + rest =~= s);
    lemma_split_from_shift(l + seq!['\n'], rest, 0);
    assert(spec_split_from(s, l.len() as int + 1) == spec_split_from(rest, 0));
    assert(spec_split_lines(s) =~= seq![l] + spec_split_lines(rest));
}

/// The serialized text of a record sequence cuts back into its lines.
proof fn lemma_split_iptv_text(recs: Seq<IptvEntryView>)
    requires
        forall|i: int| 0 <= i < recs.len() ==> #[trigger] wf_iptv_record(recs[i]),
    ensures
        spec_split_lines(spec_iptv_text(recs)) == spec_iptv_lines(recs),
    decreases recs.len(),
{
    if recs.len() == 0 {
        assert(spec_split_lines(spec_iptv_text(recs)) =~= spec_iptv_lines(recs));
    } else {
        let m = recs[0];
        assert(wf_iptv_record(m));
        let e = spec_entry_line(m.entry);
        let restt = spec_iptv_text(recs.drop_first());
        lemma_split_iptv_text(recs.drop_first());
        assert(forall|i: int|
            0 <= i < recs.drop_first().len() ==> #[trigger] wf_iptv_record(recs.drop_first()[i]))
            by {
            assert(forall|i: int|
                0 <= i < recs.drop_first().len() ==> recs.drop_first()[i] == recs[i + 1]);
        }
        lemma_split_one(e, restt);
        assert(m.raw_extinf + seq!['\n'] + (e + seq!['\n'] + restt) =~= spec_iptv_text(recs));
        lemma_split_one(m.raw_extinf, e + seq!['\n'] + restt);
        assert(spec_split_lines(spec_iptv_text(recs)) =~= seq![m.raw_extinf] + (seq![e]
            + spec_iptv_lines(recs.drop_first())));
        assert(seq![m.raw_extinf] + (seq![e] + spec_iptv_lines(recs.drop_first()))
            =~= spec_iptv_lines(recs));
    }
}

/// Reading at the start of a well-formed record's two lines yields a
/// record equal to it and stops after them.
proof fn lemma_next_iptv_at_record(lines: Seq<Seq<char>>, pos: int, m: IptvEntryView)
    requires
        0 <= pos,
        pos + 2 <= lines.len(),
        lines[pos] == m.raw_extinf,
        lines[pos + 1] == spec_entry_line(m.entry),
        wf_iptv_record(m),
    ensures
        spec_next_iptv(lines, pos).1 == pos + 2,
        spec_next_iptv(lines, pos).0 matches Some(o) && o matches Ok(g) && record_eq(g, m),
{
    let raw = m.raw_extinf;
    let e = spec_entry_line(m.entry);
    assert(raw[0] == '#') by {
        assert(raw.subrange(0, 8) == tag_chars());
        assert(raw.subrange(0, 8)[0] == raw[0]);
    }
    assert(spec_trim(raw) == raw);
    assert(raw.len() >= 8);
    // the entry line after the tag line
    assert(spec_trim_start(e) == e && spec_trim_end(e) == e);
    assert(e.len() > 0 && e[0] != '#');
    assert(spec_next_entry(lines, pos + 1) == (Some(spec_read_entry(e)), pos + 2));
    assert(spec_read_entry(e) == m.entry) by {
        match m.entry {
            EntryView::Path(p) => {
                assert(!url_host_ok(p));
            },
            EntryView::Url(u) => {
                assert(url_host_ok(u) && url_normal(u) == Some(u));
            },
        }
    }
    assert(spec_next_iptv(lines, pos).0 == Some(
        Result::<IptvEntryView, EntryView>::Ok(
            IptvEntryView { entry: m.entry, parsed_extinf: None, raw_extinf: raw },
        ),
    ));
}

/// Reading every record back, from a position where exactly the
/// serialized lines of the sequence remain.
proof fn lemma_read_iptv_records(lines: Seq<Seq<char>>, pos: int, recs: Seq<IptvEntryView>)
    requires
        0 <= pos <= lines.len(),
        lines.subrange(pos, lines.len() as int) == spec_iptv_lines(recs),
        forall|i: int| 0 <= i < recs.len() ==> #[trigger] wf_iptv_record(recs[i]),
    ensures
        spec_read_all_iptv(lines, pos).len() == recs.len(),
        forall|i: int|
            0 <= i < recs.len() ==> (#[trigger] spec_read_all_iptv(lines, pos)[i] matches Ok(g)
                && record_eq(g, recs[i])),
    decreases recs.len(),
{
    lemma_iptv_lines_len(recs);
    if recs.len() == 0 {
        assert(pos == lines.len());
        assert(spec_next_iptv(lines, pos).0 is None);
    } else {
        let m = recs[0];
        assert(wf_iptv_record(m));
        assert(lines[pos] == spec_iptv_lines(recs)[0]);
        assert(lines[pos + 1] == spec_iptv_lines(recs)[1]);
        lemma_next_iptv_at_record(lines, pos, m);
        let rd = recs.drop_first();
        lemma_iptv_lines_len(rd);
        assert(forall|i: int| 0 <= i < rd.len() ==> rd[i] == recs[i + 1]);
        let sub = lines.subrange(pos, lines.len() as int);
        assert(lines.len() - pos == 2 * recs.len());
        assert(spec_iptv_lines(recs) == spec_iptv_record_lines(m) + spec_iptv_lines(rd));
        assert forall|t: int| 0 <= t < lines.len() - (pos + 2) implies lines.subrange(
            pos + 2,
            lines.len() as int,
        )[t] == spec_iptv_lines(rd)[t] by {
            assert(lines.subrange(pos + 2, lines.len() as int)[t] == lines[pos + 2 + t]);
            assert(sub[t + 2] == lines[pos + 2 + t]);
            assert(sub[t + 2] == (spec_iptv_record_lines(m) + spec_iptv_lines(rd))[t + 2]);
        }
        assert(lines.subrange(pos + 2, lines.len() as int) =~= spec_iptv_lines(rd));
        lemma_read_iptv_records(lines, pos + 2, rd);
        let got = spec_read_all_iptv(lines, pos);
        let gotr = spec_read_all_iptv(lines, pos + 2);
        assert(got =~= seq![spec_next_iptv(lines, pos).0->0] + gotr);
        assert(gotr.len() == rd.len());
        assert forall|i: int| 0 <= i < recs.len() implies #[trigger] got[i] matches Ok(g)
            && record_eq(g, recs[i]) by {
            if i == 0 {
                assert(got[0] == spec_next_iptv(lines, pos).0->0);
            } else {
                assert(got[i] == gotr[i - 1]);
                assert(gotr[i - 1] matches Ok(g) && record_eq(g, rd[i - 1]));
            }
        }
    }
}

proof fn lemma_iptv_lines_len(recs: Seq<IptvEntryView>)
    ensures
        spec_iptv_lines(recs).len() == 2 * recs.len(),
    decreases recs.len(),
{
    if recs.len() > 0 {
        lemma_iptv_lines_len(recs.drop_first());
    }
}

/// Round trip: the text written for a sequence of well-formed
/// records, cut back into lines, passes the header gate and reads
/// back as a sequence of records equal to the originals, one for
/// one.
pub proof fn lemma_iptv_round_trip(recs: Seq<IptvEntryView>)
    requires
        forall|i: int| 0 <= i < recs.len() ==> #[trigger] wf_iptv_record(recs[i]),
    ensures
        ({
            let lines = spec_split_lines(spec_header_text() + spec_iptv_text(recs));
            &&& spec_header_scan(lines, 0) == Some(1int)
            &&& spec_read_all_iptv(lines, 1).len() == recs.len()
            &&& forall|i: int|
                0 <= i < recs.len() ==> (#[trigger] spec_read_all_iptv(lines, 1)[i] matches Ok(
                    g,
                ) && record_eq(g, recs[i]))
        }),
{
    let text = spec_header_text() + spec_iptv_text(recs);
    lemma_header_chars_facts();
    assert(header_chars() + seq!['\n'] + spec_iptv_text(recs) =~= text);
    lemma_split_one(header_chars(), spec_iptv_text(recs));
    lemma_split_iptv_text(recs);
    let lines = spec_split_lines(text);
    assert(lines == seq![header_chars()] + spec_iptv_lines(recs));
    lemma_iptv_lines_len(recs);
    // the header gate accepts the first line and stops after it
    assert(spec_trim_start(lines[0]) == header_chars()) by {
        lemma_trim_start_idx_is(header_chars(), 0);
        assert(header_chars().subrange(0, 7) =~= header_chars());
    }
    assert(has_header(spec_trim_start(lines[0]))) by {
        assert(header_chars().subrange(0, 7) =~= header_chars());
    }
    assert(spec_header_scan(lines, 0) == Some(1int));
    assert(lines.subrange(1, lines.len() as int) =~= spec_iptv_lines(recs));
    lemma_read_iptv_records(lines, 1, recs);
}

/// An extended record that writes to two lines which read back as the
/// same record: the duration is decimal text without a comma, the
/// name carries no whitespace at its ends, neither holds a line feed,
/// and the entry line reads back as the same entry.
pub open spec fn wf_ext_record(x: EntryExtView) -> bool {
    &&& spec_num_text(x.extinf.duration_secs)
    &&& forall|i: int|
        0 <= i < x.extinf.duration_secs.len() ==> x.extinf.duration_secs[i] != ','
    &&& newline_free(x.extinf.duration_secs)
    &&& spec_trim(x.extinf.name) == x.extinf.name
    &&& newline_free(x.extinf.name)
    &&& entry_line_wf(x.entry)
}

/// The lines an extended record sequence serializes to.
pub open spec fn spec_ext_lines(recs: Seq<EntryExtView>) -> Seq<Seq<char>>
    decreases recs.len(),
{
    if recs.len() == 0 {
        Seq::empty()
    } else {
        seq![spec_ext_tag_line(recs[0].extinf), spec_entry_line(recs[0].entry)] + spec_ext_lines(
            recs.drop_first(),
        )
    }
}

/// The text an extended record sequence serializes to, after the
/// header.
pub open spec fn spec_ext_text(recs: Seq<EntryExtView>) -> Seq<char>
    decreases recs.len(),
{
    if recs.len() == 0 {
        Seq::empty()
    } else {
        spec_ext_tag_line(recs[0].extinf) + seq!['\n'] + spec_entry_line(recs[0].entry)
            + seq!['\n'] + spec_ext_text(recs.drop_first())
    }
}

proof fn lemma_tag_chars_facts()
    ensures
        newline_free(tag_chars()),
        tag_chars()[0] == '#',
        !ws_like('#'),
{
    assert forall|i: int| 0 <= i < tag_chars().len() implies tag_chars()[i] != '\n' by {
        if i == 0 {
            assert(tag_chars()[0] == '#');
        } else if i == 1 {
            assert(tag_chars()[1] == 'E');
        } else if i == 2 {
            assert(tag_chars()[2] == 'X');
        } else if i == 3 {
            assert(tag_chars()[3] == 'T');
        } else if i == 4 {
            assert(tag_chars()[4] == 'I');
        } else if i == 5 {
            assert(tag_chars()[5] == 'N');
        } else if i == 6 {
            assert(tag_chars()[6] == 'F');
        } else {
            assert(tag_chars()[7] == ':');
        }
    }
}

/// The tag line of a well-formed extended record, and what reading it
/// back yields.
proof fn lemma_ext_tag_line(x: EntryExtView)
    requires
        wf_ext_record(x),
    ensures
        has_tag(spec_ext_tag_line(x.extinf)),
        spec_trim_start(spec_ext_tag_line(x.extinf)) == spec_ext_tag_line(x.extinf),
        newline_free(spec_ext_tag_line(x.extinf)),
        spec_ext_tag_line(x.extinf)[0] == '#',
        spec_read_extinf(spec_ext_tag_line(x.extinf)) == Some(x.extinf),
{
    let dur = x.extinf.duration_secs;
    let name = x.extinf.name;
    let l = spec_ext_tag_line(x.extinf);
    lemma_tag_chars_facts();
    assert(l == tag_chars() + dur + seq![','] + name);
    assert forall|u: int| 0 <= u < l.len() implies l[u] == (if u < 8 {
        tag_chars()[u]
    } else if u < 8 + dur.len() {
        dur[u - 8]
    } else if u == 8 + dur.len() {
        ','
    } else {
        name[u - 9 - dur.len()]
    }) by {
        assert(((tag_chars() + dur) + seq![',']) + name =~= l);
    }
    assert(l[0] == '#');
    assert(l.subrange(0, 8) =~= tag_chars());
    assert(has_tag(l));
    assert(newline_free(l));
    lemma_trim_start_idx_is(l, 0);
    assert(spec_trim_start(l) =~= l);
    // reading the extended information back
    let rest = l.subrange(8, l.len() as int);
    assert(rest =~= dur + seq![','] + name);
    assert(find_comma(rest, 0) == dur.len()) by {
        assert(forall|t: int| 0 <= t < dur.len() ==> rest[t] == dur[t]);
        assert(rest[dur.len() as int] == ',');
        lemma_find_comma_is(rest, 0, dur.len() as int);
    }
    assert(rest.subrange(0, dur.len() as int) =~= dur);
    assert(rest.subrange(dur.len() as int + 1, rest.len() as int) =~= name);
    assert(spec_read_extinf(l) == Some(x.extinf));
}

/// Reading at the start of a well-formed extended record's two lines
/// yields the record itself and stops after them.
proof fn lemma_next_ext_at_record(lines: Seq<Seq<char>>, pos: int, x: EntryExtView)
    requires
        0 <= pos,
        pos + 2 <= lines.len(),
        lines[pos] == spec_ext_tag_line(x.extinf),
        lines[pos + 1] == spec_entry_line(x.entry),
        wf_ext_record(x),
    ensures
        spec_next_ext(lines, pos).1 == pos + 2,
        spec_next_ext(lines, pos).0 == Some(Result::<EntryExtView, EntryView>::Ok(x)),
{
    lemma_ext_tag_line(x);
    let l = spec_ext_tag_line(x.extinf);
    let e = spec_entry_line(x.entry);
    assert(spec_trim_start(e) == e && spec_trim_end(e) == e);
    assert(e.len() > 0 && e[0] != '#');
    assert(spec_next_entry(lines, pos + 1) == (Some(spec_read_entry(e)), pos + 2));
    assert(spec_read_entry(e) == x.entry) by {
        match x.entry {
            EntryView::Path(p) => {
                assert(!url_host_ok(p));
            },
            EntryView::Url(u) => {
                assert(url_host_ok(u) && url_normal(u) == Some(u));
            },
        }
    }
}

proof fn lemma_ext_lines_len(recs: Seq<EntryExtView>)
    ensures
        spec_ext_lines(recs).len() == 2 * recs.len(),
    decreases recs.len(),
{
    if recs.len() > 0 {
        lemma_ext_lines_len(recs.drop_first());
    }
}

proof fn lemma_split_ext_text(recs: Seq<EntryExtView>)
    requires
        forall|i: int| 0 <= i < recs.len() ==> #[trigger] wf_ext_record(recs[i]),
    ensures
        spec_split_lines(spec_ext_text(recs)) == spec_ext_lines(recs),
    decreases recs.len(),
{
    if recs.len() == 0 {
        assert(spec_split_lines(spec_ext_text(recs)) =~= spec_ext_lines(recs));
    } else {
        let x = recs[0];
        assert(wf_ext_record(x));
        lemma_ext_tag_line(x);
        let l = spec_ext_tag_line(x.extinf);
        let e = spec_entry_line(x.entry);
        let restt = spec_ext_text(recs.drop_first());
        lemma_split_ext_text(recs.drop_first());
        assert(forall|i: int|
            0 <= i < recs.drop_first().len() ==> #[trigger] wf_ext_record(recs.drop_first()[i]))
            by {
            assert(forall|i: int|
                0 <= i < recs.drop_first().len() ==> recs.drop_first()[i] == recs[i + 1]);
        }
        lemma_split_one(e, restt);
        assert(l + seq!['\n'] + (e + seq!['\n'] + restt) =~= spec_ext_text(recs));
        lemma_split_one(l, e + seq!['\n'] + restt);
        assert(spec_split_lines(spec_ext_text(recs)) =~= seq![l] + (seq![e] + spec_ext_lines(
            recs.drop_first(),
        )));
        assert(seq![l] + (seq![e] + spec_ext_lines(recs.drop_first())) =~= spec_ext_lines(recs));
    }
}

proof fn lemma_read_ext_records(lines: Seq<Seq<char>>, pos: int, recs: Seq<EntryExtView>)
    requires
        0 <= pos <= lines.len(),
        lines.subrange(pos, lines.len() as int) == spec_ext_lines(recs),
        forall|i: int| 0 <= i < recs.len() ==> #[trigger] wf_ext_record(recs[i]),
    ensures
        spec_read_all_ext(lines, pos).len() == recs.len(),
        forall|i: int|
            0 <= i < recs.len() ==> #[trigger] spec_read_all_ext(lines, pos)[i] == Result::<
                EntryExtView,
                EntryView,
            >::Ok(recs[i]),
    decreases recs.len(),
{
    lemma_ext_lines_len(recs);
    if recs.len() == 0 {
        assert(pos == lines.len());
        assert(spec_next_ext(lines, pos).0 is None);
    } else {
        let x = recs[0];
        assert(wf_ext_record(x));
        assert(lines[pos] == spec_ext_lines(recs)[0]);
        assert(lines[pos + 1] == spec_ext_lines(recs)[1]);
        lemma_next_ext_at_record(lines, pos, x);
        let rd = recs.drop_first();
        lemma_ext_lines_len(rd);
        assert(forall|i: int| 0 <= i < rd.len() ==> rd[i] == recs[i + 1]);
        let sub = lines.subrange(pos, lines.len() as int);
        let head = seq![spec_ext_tag_line(x.extinf), spec_entry_line(x.entry)];
        assert(spec_ext_lines(recs) == head + spec_ext_lines(rd));
        assert forall|t: int| 0 <= t < lines.len() - (pos + 2) implies lines.subrange(
            pos + 2,
            lines.len() as int,
        )[t] == spec_ext_lines(rd)[t] by {
            assert(lines.subrange(pos + 2, lines.len() as int)[t] == lines[pos + 2 + t]);
            assert(sub[t + 2] == lines[pos + 2 + t]);
            assert(sub[t + 2] == (head + spec_ext_lines(rd))[t + 2]);
        }
        assert(lines.subrange(pos + 2, lines.len() as int) =~= spec_ext_lines(rd));
        lemma_read_ext_records(lines, pos + 2, rd);
        let got = spec_read_all_ext(lines, pos);
        let gotr = spec_read_all_ext(lines, pos + 2);
        assert(got =~= seq![spec_next_ext(lines, pos).0->0] + gotr);
        assert(gotr.len() == rd.len());
        assert forall|i: int| 0 <= i < recs.len() implies #[trigger] got[i] == Result::<
            EntryExtView,
            EntryView,
        >::Ok(recs[i]) by {
            if i == 0 {
                assert(got[0] == spec_next_ext(lines, pos).0->0);
            } else {
                assert(got[i] == gotr[i - 1]);
            }
        }
    }
}

/// Round trip for the extended format: the text written for a
/// sequence of well-formed extended records, cut back into lines,
/// passes the header gate and reads back as exactly the same
/// sequence.
pub proof fn lemma_ext_round_trip(recs: Seq<EntryExtView>)
    requires
        forall|i: int| 0 <= i < recs.len() ==> #[trigger] wf_ext_record(recs[i]),
    ensures
        ({
            let lines = spec_split_lines(spec_header_text() + spec_ext_text(recs));
            &&& spec_header_scan(lines, 0) == Some(1int)
            &&& spec_read_all_ext(lines, 1).len() == recs.len()
            &&& forall|i: int|
                0 <= i < recs.len() ==> #[trigger] spec_read_all_ext(lines, 1)[i] == Result::<
                    EntryExtView,
                    EntryView,
                >::Ok(recs[i])
        }),
{
    let text = spec_header_text() + spec_ext_text(recs);
    lemma_header_chars_facts();
    assert(header_chars() + seq!['\n'] + spec_ext_text(recs) =~= text);
    lemma_split_one(header_chars(), spec_ext_text(recs));
    lemma_split_ext_text(recs);
    let lines = spec_split_lines(text);
    assert(lines == seq![header_chars()] + spec_ext_lines(recs));
    lemma_ext_lines_len(recs);
    assert(spec_trim_start(lines[0]) == header_chars()) by {
        lemma_trim_start_idx_is(header_chars(), 0);
        assert(header_chars().subrange(0, 7) =~= header_chars());
    }
    assert(has_header(spec_trim_start(lines[0]))) by {
        assert(header_chars().subrange(0, 7) =~= header_chars());
    }
    assert(spec_header_scan(lines, 0) == Some(1int));
    assert(lines.subrange(1, lines.len() as int) =~= spec_ext_lines(recs));
    lemma_read_ext_records(lines, 1, recs);
}

proof fn lemma_header_chars_facts()
    ensures
        newline_free(header_chars()),
        header_chars()[0] == '#',
{
    assert forall|i: int| 0 <= i < header_chars().len() implies header_chars()[i] != '\n' by {
        if i == 0 {
            assert(header_chars()[0] == '#');
        } else if i == 1 {
            assert(header_chars()[1] == 'E');
        } else if i == 2 {
            assert(header_chars()[2] == 'X');
        } else if i == 3 {
            assert(header_chars()[3] == 'T');
        } else if i == 4 {
            assert(header_chars()[4] == 'M');
        } else if i == 5 {
            assert(header_chars()[5] == '3');
        } else {
            assert(header_chars()[6] == 'U');
        }
    }
}

} // verus!
