//! Reading the M3U format from a sequence of input lines.
//!
//! The reader pulls one line at a time from the sequence it was given,
//! skipping blank lines and comments; in extended mode a record is one
//! tag line followed by one entry line, with a recoverable error when
//! the tag is absent.

use vstd::prelude::*;
use vstd::string::*;

pub mod iptv;
pub mod split;

use crate::text::{
    spec_trim, spec_trim_end, spec_trim_start, trim_end_str, trim_start_str, trim_str,
};
use crate::numtext::{is_num_text, spec_num_text};
use crate::{parse_url, url_host_ok, url_normal, Entry, EntryExt, EntryExtView, EntryView, ExtInf,
    ExtInfView};

verus! {

/// The lines a vector of owned strings holds, as sequences of
/// characters.
pub open spec fn lines_view(v: Seq<String>) -> Seq<Seq<char>> {
    v.map_values(|s: String| s@)
}

/// The characters of the `#EXTM3U` header token.
pub open spec fn header_chars() -> Seq<char> {
    seq!['#', 'E', 'X', 'T', 'M', '3', 'U']
}

/// The characters of the `#EXTINF:` tag.
pub open spec fn tag_chars() -> Seq<char> {
    seq!['#', 'E', 'X', 'T', 'I', 'N', 'F', ':']
}

/// The line opens with the header token.
pub open spec fn has_header(l: Seq<char>) -> bool {
    l.len() >= 7 && l.subrange(0, 7) == header_chars()
}

/// The line opens with the extended-info tag.
pub open spec fn has_tag(l: Seq<char>) -> bool {
    l.len() >= 8 && l.subrange(0, 8) == tag_chars()
}

fn header_prefix_at(s: &str) -> (r: bool)
    ensures
        r == has_header(s@),
{
    let n: usize = s.unicode_len();
    if n < 7 {
        return false;
    }
    let ok = s.get_char(0) == '#' && s.get_char(1) == 'E' && s.get_char(2) == 'X' && s.get_char(3)
        == 'T' && s.get_char(4) == 'M' && s.get_char(5) == '3' && s.get_char(6) == 'U';
    proof {
        if ok {
            assert(s@.subrange(0, 7) =~= header_chars());
        } else {
            if s@.subrange(0, 7) == header_chars() {
                assert(forall|t: int| 0 <= t < 7 ==> s@[t] == header_chars()[t]) by {
                    assert(forall|t: int| 0 <= t < 7 ==> s@.subrange(0, 7)[t] == s@[t]);
                }
            }
        }
    }
    ok
}

pub(crate) fn tag_prefix_at(s: &str) -> (r: bool)
    ensures
        r == has_tag(s@),
{
    let n: usize = s.unicode_len();
    if n < 8 {
        return false;
    }
    let ok = s.get_char(0) == '#' && s.get_char(1) == 'E' && s.get_char(2) == 'X' && s.get_char(3)
        == 'T' && s.get_char(4) == 'I' && s.get_char(5) == 'N' && s.get_char(6) == 'F'
        && s.get_char(7) == ':';
    proof {
        if ok {
            assert(s@.subrange(0, 8) =~= tag_chars());
        } else {
            if s@.subrange(0, 8) == tag_chars() {
                assert(forall|t: int| 0 <= t < 8 ==> s@[t] == tag_chars()[t]) by {
                    assert(forall|t: int| 0 <= t < 8 ==> s@.subrange(0, 8)[t] == s@[t]);
                }
            }
        }
    }
    ok
}

/// How one non-blank, non-comment line is classified: a network
/// location when the structured parse succeeds with a host component
/// present, else a path taken verbatim.
pub open spec fn spec_read_entry(s: Seq<char>) -> EntryView {
    if url_host_ok(s) {
        EntryView::Url(url_normal(s)->0)
    } else {
        EntryView::Path(s)
    }
}

/// Classify one trimmed line as an entry.
pub(crate) fn read_entry(line: &str) -> (r: Entry)
    ensures
        r@ == spec_read_entry(line@),
{
    match parse_url(line) {
        Some(p) => {
            if p.1 {
                Entry::Url(p.0)
            } else {
                Entry::Path(String::from_str(line))
            }
        },
        None => Entry::Path(String::from_str(line)),
    }
}

/// Reading one plain entry: blank lines and comments are skipped; the
/// first remaining line, trimmed, is the entry. The second component
/// is the position after the consumed lines.
pub open spec fn spec_next_entry(lines: Seq<Seq<char>>, pos: int) -> (Option<EntryView>, int)
    decreases lines.len() - pos,
    when 0 <= pos
{
    if pos >= lines.len() {
        (None, pos)
    } else {
        let t = spec_trim_start(lines[pos]);
        if t.len() == 0 || t[0] == '#' {
            spec_next_entry(lines, pos + 1)
        } else {
            (Some(spec_read_entry(spec_trim_end(t))), pos + 1)
        }
    }
}

pub proof fn lemma_next_entry_bounds(lines: Seq<Seq<char>>, pos: int)
    requires
        0 <= pos,
    ensures
        pos <= spec_next_entry(lines, pos).1 <= lines.len() || (pos >= lines.len()
            && spec_next_entry(lines, pos).1 == pos),
        spec_next_entry(lines, pos).0 is Some ==> spec_next_entry(lines, pos).1 > pos,
        pos <= lines.len() && spec_next_entry(lines, pos).0 is None ==> spec_next_entry(
            lines,
            pos,
        ).1 == lines.len(),
    decreases lines.len() - pos,
{
    if pos < lines.len() {
        lemma_next_entry_bounds(lines, pos + 1);
    }
}

/// First index at or after `i` holding a comma, or the length of the
/// text.
pub open spec fn find_comma(s: Seq<char>, i: int) -> int
    decreases s.len() - i,
{
    if !(0 <= i < s.len()) {
        s.len() as int
    } else if s[i] == ',' {
        i
    } else {
        find_comma(s, i + 1)
    }
}

pub proof fn lemma_find_comma_is(s: Seq<char>, start: int, j: int)
    requires
        0 <= start <= j <= s.len(),
        forall|t: int| start <= t < j ==> s[t] != ',',
        j < s.len() ==> s[j] == ',',
    ensures
        find_comma(s, start) == j,
    decreases j - start,
{
    if start < j {
        assert(s[start] != ',');
        lemma_find_comma_is(s, start + 1, j);
    }
}

/// How extended information is read from a tag line: the text after
/// the tag is cut at the first comma into the duration and the
/// trimmed name; without a comma the name is empty. The duration must
/// be decimal text.
pub open spec fn spec_read_extinf(l: Seq<char>) -> Option<ExtInfView> {
    let rest = l.subrange(8, l.len() as int);
    let c = find_comma(rest, 0);
    let duration = rest.subrange(0, c);
    let name = if c < rest.len() {
        spec_trim(rest.subrange(c + 1, rest.len() as int))
    } else {
        Seq::empty()
    };
    if spec_num_text(duration) {
        Some(ExtInfView { duration_secs: duration, name })
    } else {
        None
    }
}

/// Read extended information from a line that opens with the tag.
fn read_extinf(line: &str) -> (r: Option<ExtInf>)
    requires
        line@.len() >= 8,
    ensures
        r is Some <==> spec_read_extinf(line@) is Some,
        r matches Some(x) ==> spec_read_extinf(line@) == Some(x@),
{
    let n: usize = line.unicode_len();
    let rest = line.substring_char(8, n);
    let rn: usize = rest.unicode_len();
    let mut c: usize = 0;
    while c < rn && rest.get_char(c) != ','
        invariant
            c <= rn,
            rn == rest@.len(),
            forall|t: int| 0 <= t < c ==> rest@[t] != ',',
        decreases rn - c,
    {
        c = c + 1;
    }
    proof {
        lemma_find_comma_is(rest@, 0, c as int);
    }
    let duration_str = rest.substring_char(0, c);
    if !is_num_text(duration_str) {
        return None;
    }
    let name = if c < rn {
        trim_str(rest.substring_char(c + 1, rn))
    } else {
        ""
    };
    proof {
        reveal_strlit("");
        assert(""@ =~= Seq::<char>::empty());
    }
    Some(ExtInf { duration_secs: String::from_str(duration_str), name: String::from_str(name) })
}

/// Reading one extended record: blank lines and comments are skipped.
/// A line that opens with the tag is read as extended information and
/// the next entry line completes the record; end of input there ends
/// the reading. A non-comment line without the tag is itself
/// classified as an entry and carried by the recoverable error.
pub open spec fn spec_next_ext(lines: Seq<Seq<char>>, pos: int) -> (
    Option<Result<EntryExtView, EntryView>>,
    int,
)
    decreases lines.len() - pos,
    when 0 <= pos
{
    if pos >= lines.len() {
        (None, pos)
    } else {
        let t = spec_trim_start(lines[pos]);
        if t.len() == 0 {
            spec_next_ext(lines, pos + 1)
        } else if t[0] == '#' {
            if has_tag(t) {
                let ext = spec_read_extinf(t);
                let after = spec_next_entry(lines, pos + 1);
                match after.0 {
                    None => (None, after.1),
                    Some(en) => match ext {
                        Some(x) => (
                            Some(Ok(EntryExtView { entry: en, extinf: x })),
                            after.1,
                        ),
                        None => (Some(Err(en)), after.1),
                    },
                }
            } else {
                spec_next_ext(lines, pos + 1)
            }
        } else {
            (Some(Err(spec_read_entry(spec_trim_end(t)))), pos + 1)
        }
    }
}

pub proof fn lemma_next_ext_bounds(lines: Seq<Seq<char>>, pos: int)
    requires
        0 <= pos <= lines.len(),
    ensures
        pos <= spec_next_ext(lines, pos).1 <= lines.len(),
        spec_next_ext(lines, pos).0 is Some ==> spec_next_ext(lines, pos).1 > pos,
        spec_next_ext(lines, pos).0 is None ==> spec_next_ext(lines, pos).1 == lines.len(),
    decreases lines.len() - pos,
{
    if pos < lines.len() {
        lemma_next_ext_bounds(lines, pos + 1);
        lemma_next_entry_bounds(lines, pos + 1);
    }
}

/// Attempt to read the next plain entry from the lines, advancing
/// the position past the consumed lines.
pub(crate) fn read_next_entry_from(lines: &Vec<String>, pos: &mut usize) -> (r: Option<Entry>)
    ensures
        *final(pos) as int == spec_next_entry(lines_view(lines@), *old(pos) as int).1,
        r is Some <==> spec_next_entry(lines_view(lines@), *old(pos) as int).0 is Some,
        r matches Some(e) ==> spec_next_entry(lines_view(lines@), *old(pos) as int).0 == Some(e@),
{
    let n = lines.len();
    while *pos < n
        invariant
            n == lines@.len(),
            *old(pos) <= *pos,
            spec_next_entry(lines_view(lines@), *old(pos) as int) == spec_next_entry(
                lines_view(lines@),
                *pos as int,
            ),
        decreases n - *pos,
    {
        proof {
            assert(lines_view(lines@)[*pos as int] == lines@[*pos as int]@);
        }
        let t = trim_start_str(lines[*pos].as_str());
        if t.unicode_len() == 0 {
            *pos = *pos + 1;
        } else if t.get_char(0) == '#' {
            *pos = *pos + 1;
        } else {
            let entry = read_entry(trim_end_str(t));
            *pos = *pos + 1;
            return Some(entry);
        }
    }
    None
}

/// Errors that may occur when constructing an extended-mode reader.
#[derive(Debug, Clone, PartialEq, Eq, Structural)]
pub enum EntryExtReaderConstructionError {
    /// The header was not found on the first non-blank line.
    HeaderNotFound,
}

/// Errors that may occur when reading an extended record.
#[derive(Debug)]
pub enum ReadEntryExtError {
    /// Either the tag was not found or the duration and name
    /// following it were not correctly formatted. Assuming the tag
    /// was simply omitted, the line is instead classified as an
    /// entry.
    ExtInfNotFound(Entry),
}

/// Mathematical shape of a [`Reader`]: the input lines and the
/// position of the next one to consume.
pub struct ReaderView {
    pub lines: Seq<Seq<char>>,
    pub pos: int,
}

/// A reader over a sequence of input lines.
///
/// Lines are consumed on demand and no more than strictly necessary:
/// one record needs at most one tag line and one entry line beyond
/// the skipped blank and comment lines.
#[derive(Debug)]
pub struct Reader {
    /// The input lines.
    lines: Vec<String>,
    /// How many leading lines have been consumed.
    pos: usize,
}

impl View for Reader {
    type V = ReaderView;

    closed spec fn view(&self) -> ReaderView {
        ReaderView { lines: lines_view(self.lines@), pos: self.pos as int }
    }
}

/// Scanning for the header: blank lines before it are skipped; the
/// first non-blank line must open with the header token, and the
/// position after it is kept. Anything else, or end of input, fails.
pub open spec fn spec_header_scan(lines: Seq<Seq<char>>, pos: int) -> Option<int>
    decreases lines.len() - pos,
    when 0 <= pos
{
    if pos >= lines.len() {
        None
    } else {
        let t = spec_trim_start(lines[pos]);
        if has_header(t) {
            Some(pos + 1)
        } else if t.len() == 0 {
            spec_header_scan(lines, pos + 1)
        } else {
            None
        }
    }
}

/// A successful header scan stops at a position within the input.
pub proof fn lemma_header_scan_bounds(lines: Seq<Seq<char>>, pos: int)
    requires
        0 <= pos,
    ensures
        spec_header_scan(lines, pos) matches Some(p) ==> pos < p <= lines.len(),
    decreases lines.len() - pos,
{
    if pos < lines.len() {
        lemma_header_scan_bounds(lines, pos + 1);
    }
}

impl Reader {
    /// A reader that reads the original, non-extended M3U entries.
    pub fn new(lines: Vec<String>) -> (r: Self)
        ensures
            r@.lines == lines_view(lines@),
            r@.pos == 0,
    {
        Reader { lines, pos: 0 }
    }

    /// A reader for the extended format. The header is consumed
    /// immediately: blank lines before it are skipped, and a missing
    /// header is a construction error.
    pub fn new_ext(lines: Vec<String>) -> (r: Result<Self, EntryExtReaderConstructionError>)
        ensures
            r is Ok <==> spec_header_scan(lines_view(lines@), 0) is Some,
            r matches Ok(rd) ==> rd@.lines == lines_view(lines@) && Some(rd@.pos)
                == spec_header_scan(lines_view(lines@), 0),
            r matches Ok(rd) ==> 0 < rd@.pos <= rd@.lines.len(),
    {
        proof {
            lemma_header_scan_bounds(lines_view(lines@), 0);
        }
        let n = lines.len();
        let mut pos: usize = 0;
        while pos < n
            invariant
                pos <= n,
                n == lines@.len(),
                spec_header_scan(lines_view(lines@), 0) == spec_header_scan(
                    lines_view(lines@),
                    pos as int,
                ),
            decreases n - pos,
        {
            let t = trim_start_str(lines[pos].as_str());
            proof {
                assert(lines_view(lines@)[pos as int] == lines@[pos as int]@);
            }
            if header_prefix_at(t) {
                return Ok(Reader { lines, pos: pos + 1 });
            }
            if t.unicode_len() != 0 {
                return Err(EntryExtReaderConstructionError::HeaderNotFound);
            }
            pos = pos + 1;
        }
        Err(EntryExtReaderConstructionError::HeaderNotFound)
    }

    /// Produce the inner line sequence.
    pub fn into_inner(self) -> (r: Vec<String>)
        ensures
            lines_view(r@) == self@.lines,
    {
        self.lines
    }

    /// Attempt to read the next plain entry. Returns `None` when no
    /// lines remain.
    pub fn read_next_entry(&mut self) -> (r: Option<Entry>)
        ensures
            final(self)@.lines == old(self)@.lines,
            final(self)@.pos == spec_next_entry(old(self)@.lines, old(self)@.pos).1,
            r is Some <==> spec_next_entry(old(self)@.lines, old(self)@.pos).0 is Some,
            r matches Some(e) ==> spec_next_entry(old(self)@.lines, old(self)@.pos).0 == Some(e@),
    {
        read_next_entry_from(&self.lines, &mut self.pos)
    }

    /// Attempt to read the next extended record.
    ///
    /// Two non-blank, non-comment lines are read: the tag line, which
    /// gives the extended information, and the entry line. Upon a
    /// missing tag an `ExtInfNotFound` error carries the line
    /// classified as an entry instead. Returns `Ok(None)` when no
    /// lines remain.
    pub fn read_next_entry_ext(&mut self) -> (r: Result<Option<EntryExt>, ReadEntryExtError>)
        ensures
            final(self)@.lines == old(self)@.lines,
            final(self)@.pos == spec_next_ext(old(self)@.lines, old(self)@.pos).1,
            r matches Ok(None) <==> spec_next_ext(old(self)@.lines, old(self)@.pos).0 is None,
            r matches Ok(Some(x)) ==> spec_next_ext(old(self)@.lines, old(self)@.pos).0 == Some(
                Result::<EntryExtView, EntryView>::Ok(x@),
            ),
            r matches Err(e) ==> (e matches ReadEntryExtError::ExtInfNotFound(en)
                && spec_next_ext(old(self)@.lines, old(self)@.pos).0 == Some(
                Result::<EntryExtView, EntryView>::Err(en@),
            )),
            (spec_next_ext(old(self)@.lines, old(self)@.pos).0 matches Some(o) ==> (o is Ok <==> r
                matches Ok(Some(x)))),
    {
        let n = self.lines.len();
        while self.pos < n
            invariant
                n == self.lines@.len(),
                self.lines@ == old(self).lines@,
                old(self).pos <= self.pos,
                spec_next_ext(old(self)@.lines, old(self)@.pos) == spec_next_ext(
                    self@.lines,
                    self@.pos,
                ),
            decreases n - self.pos,
        {
            proof {
                assert(self@.lines[self.pos as int] == self.lines@[self.pos as int]@);
            }
            let t = trim_start_str(self.lines[self.pos].as_str());
            if t.unicode_len() == 0 {
                self.pos = self.pos + 1;
            } else if t.get_char(0) == '#' {
                if tag_prefix_at(t) {
                    let extinf = read_extinf(t);
                    self.pos = self.pos + 1;
                    let entry = match self.read_next_entry() {
                        None => {
                            return Ok(None);
                        },
                        Some(entry) => entry,
                    };
                    return match extinf {
                        Some(extinf) => Ok(Some(EntryExt { entry, extinf })),
                        None => Err(ReadEntryExtError::ExtInfNotFound(entry)),
                    };
                } else {
                    self.pos = self.pos + 1;
                }
            } else {
                let entry = read_entry(trim_end_str(t));
                self.pos = self.pos + 1;
                return Err(ReadEntryExtError::ExtInfNotFound(entry));
            }
        }
        Ok(None)
    }
}

/// All plain entries from the given position to the end of input.
pub open spec fn spec_read_all_entries(lines: Seq<Seq<char>>, pos: int) -> Seq<EntryView>
    decreases lines.len() - pos,
    when 0 <= pos <= lines.len()
    via spec_read_all_entries_dec
{
    match spec_next_entry(lines, pos).0 {
        None => Seq::empty(),
        Some(e) => seq![e] + spec_read_all_entries(lines, spec_next_entry(lines, pos).1),
    }
}

#[via_fn]
proof fn spec_read_all_entries_dec(lines: Seq<Seq<char>>, pos: int) {
    lemma_next_entry_bounds(lines, pos);
}

/// All extended read outcomes from the given position to the end of
/// input: records, and the recoverable errors carrying an entry.
pub open spec fn spec_read_all_ext(lines: Seq<Seq<char>>, pos: int) -> Seq<
    Result<EntryExtView, EntryView>,
>
    decreases lines.len() - pos,
    when 0 <= pos <= lines.len()
    via spec_read_all_ext_dec
{
    match spec_next_ext(lines, pos).0 {
        None => Seq::empty(),
        Some(o) => seq![o] + spec_read_all_ext(lines, spec_next_ext(lines, pos).1),
    }
}

#[via_fn]
proof fn spec_read_all_ext_dec(lines: Seq<Seq<char>>, pos: int) {
    lemma_next_ext_bounds(lines, pos);
}

/// The entries a vector holds, as views.
pub open spec fn entries_view(v: Seq<Entry>) -> Seq<EntryView> {
    v.map_values(|e: Entry| e@)
}

/// The extended outcomes a vector holds, as views.
pub open spec fn ext_results_view(v: Seq<Result<EntryExt, ReadEntryExtError>>) -> Seq<
    Result<EntryExtView, EntryView>,
> {
    v.map_values(
        |r: Result<EntryExt, ReadEntryExtError>|
            match r {
                Ok(x) => Ok(x@),
                Err(ReadEntryExtError::ExtInfNotFound(e)) => Err(e@),
            },
    )
}

impl Reader {
    /// All remaining plain entries, lazily read one line at a time.
    pub fn entries(&mut self) -> (r: Vec<Entry>)
        requires
            old(self)@.pos <= old(self)@.lines.len(),
        ensures
            final(self)@.lines == old(self)@.lines,
            entries_view(r@) == spec_read_all_entries(old(self)@.lines, old(self)@.pos),
    {
        let mut out: Vec<Entry> = Vec::new();
        loop
            invariant
                self@.lines == old(self)@.lines,
                0 <= self@.pos <= self@.lines.len(),
                spec_read_all_entries(old(self)@.lines, old(self)@.pos) == entries_view(out@)
                    + spec_read_all_entries(self@.lines, self@.pos),
            ensures
                self@.lines == old(self)@.lines,
                entries_view(out@) == spec_read_all_entries(old(self)@.lines, old(self)@.pos),
            decreases self@.lines.len() - self@.pos,
        {
            proof {
                lemma_next_entry_bounds(self@.lines, self@.pos);
            }
            let ghost prev = out@;
            match self.read_next_entry() {
                None => {
                    proof {
                        assert(entries_view(out@) + spec_read_all_entries(self@.lines, self@.pos)
                            =~= entries_view(out@));
                    }
                    break ;
                },
                Some(e) => {
                    let ghost ev = e@;
                    out.push(e);
                    proof {
                        assert(entries_view(out@) =~= entries_view(prev) + seq![ev]);
                    }
                },
            }
        }
        out
    }

    /// All remaining extended read outcomes, lazily read two lines at
    /// a time.
    pub fn entry_exts(&mut self) -> (r: Vec<Result<EntryExt, ReadEntryExtError>>)
        requires
            old(self)@.pos <= old(self)@.lines.len(),
        ensures
            final(self)@.lines == old(self)@.lines,
            ext_results_view(r@) == spec_read_all_ext(old(self)@.lines, old(self)@.pos),
    {
        let mut out: Vec<Result<EntryExt, ReadEntryExtError>> = Vec::new();
        loop
            invariant
                self@.lines == old(self)@.lines,
                0 <= self@.pos <= self@.lines.len(),
                spec_read_all_ext(old(self)@.lines, old(self)@.pos) == ext_results_view(out@)
                    + spec_read_all_ext(self@.lines, self@.pos),
            ensures
                self@.lines == old(self)@.lines,
                ext_results_view(out@) == spec_read_all_ext(old(self)@.lines, old(self)@.pos),
            decreases self@.lines.len() - self@.pos,
        {
            proof {
                lemma_next_ext_bounds(self@.lines, self@.pos);
            }
            let ghost prev = out@;
            match self.read_next_entry_ext() {
                Ok(None) => {
                    proof {
                        assert(ext_results_view(out@) + spec_read_all_ext(self@.lines, self@.pos)
                            =~= ext_results_view(out@));
                    }
                    break ;
                },
                Ok(Some(x)) => {
                    let ghost xv = x@;
                    out.push(Ok(x));
                    proof {
                        assert(ext_results_view(out@) =~= ext_results_view(prev) + seq![
                            Result::<EntryExtView, EntryView>::Ok(xv),
                        ]);
                    }
                },
                Err(e) => {
                    let ghost ev = match &e {
                        ReadEntryExtError::ExtInfNotFound(en) => en@,
                    };
                    out.push(Err(e));
                    proof {
                        assert(ext_results_view(out@) =~= ext_results_view(prev) + seq![
                            Result::<EntryExtView, EntryView>::Err(ev),
                        ]);
                    }
                },
            }
        }
        out
    }
}

/// First index at or after `i` holding a line feed, or the length of
/// the text.
pub open spec fn find_nl(s: Seq<char>, i: int) -> int
    decreases s.len() - i,
{
    if !(0 <= i < s.len()) {
        s.len() as int
    } else if s[i] == '\n' {
        i
    } else {
        find_nl(s, i + 1)
    }
}

pub proof fn lemma_find_nl_is(s: Seq<char>, start: int, j: int)
    requires
        0 <= start <= j <= s.len(),
        forall|t: int| start <= t < j ==> s[t] != '\n',
        j < s.len() ==> s[j] == '\n',
    ensures
        find_nl(s, start) == j,
    decreases j - start,
{
    if start < j {
        assert(s[start] != '\n');
        lemma_find_nl_is(s, start + 1, j);
    }
}

pub proof fn lemma_find_nl_bounds(s: Seq<char>, start: int)
    requires
        0 <= start,
    ensures
        start <= find_nl(s, start) <= s.len() || start >= s.len(),
        forall|t: int| start <= t < find_nl(s, start) ==> s[t] != '\n',
        find_nl(s, start) < s.len() ==> s[find_nl(s, start)] == '\n',
    decreases s.len() - start,
{
    if start < s.len() && s[start] != '\n' {
        lemma_find_nl_bounds(s, start + 1);
    }
}

/// Cutting text into lines at each line feed, from position `i`. One
/// empty segment after a final line feed is not a line of its own.
pub open spec fn spec_split_from(s: Seq<char>, i: int) -> Seq<Seq<char>>
    decreases s.len() - i,
    when 0 <= i
    via spec_split_from_dec
{
    if i >= s.len() {
        Seq::empty()
    } else {
        let j = find_nl(s, i);
        if j >= s.len() {
            seq![s.subrange(i, s.len() as int)]
        } else {
            seq![s.subrange(i, j)] + spec_split_from(s, j + 1)
        }
    }
}

#[via_fn]
proof fn spec_split_from_dec(s: Seq<char>, i: int) {
    lemma_find_nl_bounds(s, i);
}

/// The lines of the text, cut at each line feed.
pub open spec fn spec_split_lines(s: Seq<char>) -> Seq<Seq<char>> {
    spec_split_from(s, 0)
}

/// Cut text into lines at each line feed. A final line feed ends the
/// last line without opening a new one.
pub fn split_lines(text: &str) -> (r: Vec<String>)
    ensures
        lines_view(r@) == spec_split_lines(text@),
{
    let n: usize = text.unicode_len();
    let mut out: Vec<String> = Vec::new();
    let mut i: usize = 0;
    while i < n
        invariant
            i <= n,
            n == text@.len(),
            spec_split_lines(text@) == lines_view(out@) + spec_split_from(text@, i as int),
        decreases n - i,
    {
        let mut j: usize = i;
        while j < n && text.get_char(j) != '\n'
            invariant
                i <= j <= n,
                n == text@.len(),
                forall|t: int| i <= t < j ==> text@[t] != '\n',
            decreases n - j,
        {
            j = j + 1;
        }
        proof {
            lemma_find_nl_is(text@, i as int, j as int);
        }
        let ghost prev = out@;
        let seg = String::from_str(text.substring_char(i, j));
        let ghost segv = seg@;
        out.push(seg);
        proof {
            assert(lines_view(out@) =~= lines_view(prev) + seq![segv]);
        }
        if j >= n {
            i = n;
            proof {
                assert(lines_view(out@) + spec_split_from(text@, n as int) =~= lines_view(out@));
                assert(spec_split_lines(text@) =~= lines_view(out@));
            }
        } else {
            i = j + 1;
        }
    }
    proof {
        assert(lines_view(out@) + spec_split_from(text@, i as int) =~= lines_view(out@));
    }
    out
}

} // verus!
