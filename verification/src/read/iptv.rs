//! Reading IPTV records: the tag line is kept verbatim as raw text,
//! and its structured interpretation is deferred until first access.

use vstd::prelude::*;
use vstd::string::*;

use crate::iptv::{IptvEntry, IptvEntryView};
use crate::read::{
    has_tag, lemma_next_entry_bounds, lines_view, read_entry, read_next_entry_from,
    spec_header_scan, spec_next_entry, spec_read_entry, tag_prefix_at,
    EntryExtReaderConstructionError, ReadEntryExtError, Reader,
};
use crate::text::trim_str;
use crate::EntryView;

verus! {

/// Reading one IPTV record: blank lines and comments are skipped. A
/// line that opens with the tag is kept, trimmed, as the raw text of
/// the record, and the next entry line completes it; end of input
/// there ends the reading. A non-comment line without the tag is
/// itself classified as an entry and carried by the recoverable
/// error.
pub open spec fn spec_next_iptv(lines: Seq<Seq<char>>, pos: int) -> (
    Option<Result<IptvEntryView, EntryView>>,
    int,
)
    decreases lines.len() - pos,
    when 0 <= pos
{
    if pos >= lines.len() {
        (None, pos)
    } else {
        let t = crate::text::spec_trim(lines[pos]);
        if t.len() == 0 {
            spec_next_iptv(lines, pos + 1)
        } else if t[0] == '#' {
            if has_tag(t) {
                let after = spec_next_entry(lines, pos + 1);
                match after.0 {
                    None => (None, after.1),
                    Some(en) => (
                        Some(
                            Ok(
                                IptvEntryView {
                                    entry: en,
                                    parsed_extinf: None,
                                    raw_extinf: t,
                                },
                            ),
                        ),
                        after.1,
                    ),
                }
            } else {
                spec_next_iptv(lines, pos + 1)
            }
        } else {
            (Some(Err(spec_read_entry(t))), pos + 1)
        }
    }
}

pub proof fn lemma_next_iptv_bounds(lines: Seq<Seq<char>>, pos: int)
    requires
        0 <= pos <= lines.len(),
    ensures
        pos <= spec_next_iptv(lines, pos).1 <= lines.len(),
        spec_next_iptv(lines, pos).0 is Some ==> spec_next_iptv(lines, pos).1 > pos,
        spec_next_iptv(lines, pos).0 is None ==> spec_next_iptv(lines, pos).1 == lines.len(),
    decreases lines.len() - pos,
{
    if pos < lines.len() {
        lemma_next_iptv_bounds(lines, pos + 1);
        lemma_next_entry_bounds(lines, pos + 1);
    }
}

/// Attempt to read the next IPTV record from the lines, advancing the
/// position past the consumed lines.
///
/// The tag line is kept verbatim (trimmed) as the raw text; its
/// structured interpretation is not computed here. Upon a missing tag
/// an `ExtInfNotFound` error carries the line classified as an entry
/// instead. Returns `Ok(None)` when no lines remain.
pub fn next_iptv_entry(lines: &Vec<String>, pos: &mut usize) -> (r: Result<
    Option<IptvEntry>,
    ReadEntryExtError,
>)
    ensures
        *final(pos) as int == spec_next_iptv(lines_view(lines@), *old(pos) as int).1,
        r matches Ok(None) <==> spec_next_iptv(lines_view(lines@), *old(pos) as int).0 is None,
        r matches Ok(Some(x)) ==> spec_next_iptv(lines_view(lines@), *old(pos) as int).0 == Some(
            Result::<IptvEntryView, EntryView>::Ok(x@),
        ),
        r matches Err(e) ==> (e matches ReadEntryExtError::ExtInfNotFound(en) && spec_next_iptv(
            lines_view(lines@),
            *old(pos) as int,
        ).0 == Some(Result::<IptvEntryView, EntryView>::Err(en@))),
        (spec_next_iptv(lines_view(lines@), *old(pos) as int).0 matches Some(o) ==> (o is Ok <==> r
            matches Ok(Some(x)))),
{
    let n = lines.len();
    while *pos < n
        invariant
            n == lines@.len(),
            *old(pos) <= *pos,
            spec_next_iptv(lines_view(lines@), *old(pos) as int) == spec_next_iptv(
                lines_view(lines@),
                *pos as int,
            ),
        decreases n - *pos,
    {
        proof {
            assert(lines_view(lines@)[*pos as int] == lines@[*pos as int]@);
        }
        let t = trim_str(lines[*pos].as_str());
        if t.unicode_len() == 0 {
            *pos = *pos + 1;
        } else if t.get_char(0) == '#' {
            if tag_prefix_at(t) {
                let raw_extinf = String::from_str(t);
                *pos = *pos + 1;
                let entry = match read_next_entry_from(lines, pos) {
                    None => {
                        return Ok(None);
                    },
                    Some(entry) => entry,
                };
                return Ok(Some(IptvEntry { entry, parsed_extinf: None, raw_extinf }));
            } else {
                *pos = *pos + 1;
            }
        } else {
            let entry = read_entry(t);
            *pos = *pos + 1;
            return Err(ReadEntryExtError::ExtInfNotFound(entry));
        }
    }
    Ok(None)
}

/// The IPTV read outcomes a vector holds, as views.
pub open spec fn iptv_results_view(v: Seq<Result<IptvEntry, ReadEntryExtError>>) -> Seq<
    Result<IptvEntryView, EntryView>,
> {
    v.map_values(
        |r: Result<IptvEntry, ReadEntryExtError>|
            match r {
                Ok(x) => Ok(x@),
                Err(ReadEntryExtError::ExtInfNotFound(e)) => Err(e@),
            },
    )
}

/// All IPTV read outcomes from the given position to the end of
/// input.
pub open spec fn spec_read_all_iptv(lines: Seq<Seq<char>>, pos: int) -> Seq<
    Result<IptvEntryView, EntryView>,
>
    decreases lines.len() - pos,
    when 0 <= pos <= lines.len()
    via spec_read_all_iptv_dec
{
    match spec_next_iptv(lines, pos).0 {
        None => Seq::empty(),
        Some(o) => seq![o] + spec_read_all_iptv(lines, spec_next_iptv(lines, pos).1),
    }
}

#[via_fn]
proof fn spec_read_all_iptv_dec(lines: Seq<Seq<char>>, pos: int) {
    lemma_next_iptv_bounds(lines, pos);
}

impl Reader {
    /// A reader for IPTV records. The header is consumed immediately,
    /// exactly as in extended mode.
    pub fn new_iptv(lines: Vec<String>) -> (r: Result<Self, EntryExtReaderConstructionError>)
        ensures
            r is Ok <==> spec_header_scan(lines_view(lines@), 0) is Some,
            r matches Ok(rd) ==> rd@.lines == lines_view(lines@) && Some(rd@.pos)
                == spec_header_scan(lines_view(lines@), 0),
            r matches Ok(rd) ==> 0 < rd@.pos <= rd@.lines.len(),
    {
        Reader::new_ext(lines)
    }

    /// Attempt to read the next IPTV record.
    pub fn read_next_iptv_entry(&mut self) -> (r: Result<Option<IptvEntry>, ReadEntryExtError>)
        ensures
            final(self)@.lines == old(self)@.lines,
            final(self)@.pos == spec_next_iptv(old(self)@.lines, old(self)@.pos).1,
            r matches Ok(None) <==> spec_next_iptv(old(self)@.lines, old(self)@.pos).0 is None,
            r matches Ok(Some(x)) ==> spec_next_iptv(old(self)@.lines, old(self)@.pos).0 == Some(
                Result::<IptvEntryView, EntryView>::Ok(x@),
            ),
            r matches Err(e) ==> (e matches ReadEntryExtError::ExtInfNotFound(en)
                && spec_next_iptv(old(self)@.lines, old(self)@.pos).0 == Some(
                Result::<IptvEntryView, EntryView>::Err(en@),
            )),
    {
        next_iptv_entry(&self.lines, &mut self.pos)
    }

    /// All remaining IPTV read outcomes.
    pub fn iptv_entries(&mut self) -> (r: Vec<Result<IptvEntry, ReadEntryExtError>>)
        requires
            old(self)@.pos <= old(self)@.lines.len(),
        ensures
            final(self)@.lines == old(self)@.lines,
            iptv_results_view(r@) == spec_read_all_iptv(old(self)@.lines, old(self)@.pos),
    {
        let mut out: Vec<Result<IptvEntry, ReadEntryExtError>> = Vec::new();
        loop
            invariant
                self@.lines == old(self)@.lines,
                0 <= self@.pos <= self@.lines.len(),
                spec_read_all_iptv(old(self)@.lines, old(self)@.pos) == iptv_results_view(out@)
                    + spec_read_all_iptv(self@.lines, self@.pos),
            ensures
                self@.lines == old(self)@.lines,
                iptv_results_view(out@) == spec_read_all_iptv(old(self)@.lines, old(self)@.pos),
            decreases self@.lines.len() - self@.pos,
        {
            proof {
                lemma_next_iptv_bounds(self@.lines, self@.pos);
            }
            let ghost prev = out@;
            match self.read_next_iptv_entry() {
                Ok(None) => {
                    proof {
                        assert(iptv_results_view(out@) + spec_read_all_iptv(
                            self@.lines,
                            self@.pos,
                        ) =~= iptv_results_view(out@));
                    }
                    break ;
                },
                Ok(Some(x)) => {
                    let ghost xv = x@;
                    out.push(Ok(x));
                    proof {
                        assert(iptv_results_view(out@) =~= iptv_results_view(prev) + seq![
                            Result::<IptvEntryView, EntryView>::Ok(xv),
                        ]);
                    }
                },
                Err(e) => {
                    let ghost ev = match &e {
                        ReadEntryExtError::ExtInfNotFound(en) => en@,
                    };
                    out.push(Err(e));
                    proof {
                        assert(iptv_results_view(out@) =~= iptv_results_view(prev) + seq![
                            Result::<IptvEntryView, EntryView>::Err(ev),
                        ]);
                    }
                },
            }
        }
        out
    }
}

} // verus!
