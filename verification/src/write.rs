//! Writing the M3U format into an output text buffer.
//!
//! The serializer is the unambiguous inverse of the reader: every
//! attribute value it emits is fully quoted, the header is emitted
//! once at the start, and each record takes exactly two lines.

use vstd::prelude::*;
use vstd::string::*;

use crate::iptv::IptvEntry;
use crate::read::{header_chars, tag_chars};
use crate::{Entry, EntryExt, EntryView, ExtInfView};

verus! {

/// The single line an entry serializes to: the path text, or the
/// canonical text of the network location.
pub open spec fn spec_entry_line(e: EntryView) -> Seq<char> {
    match e {
        EntryView::Path(p) => p,
        EntryView::Url(u) => u,
    }
}

/// The tag line extended information serializes to:
/// `#EXTINF:` then the duration, a comma and the name.
pub open spec fn spec_ext_tag_line(x: ExtInfView) -> Seq<char> {
    tag_chars() + x.duration_secs + seq![','] + x.name
}

/// The header line followed by a line feed.
pub open spec fn spec_header_text() -> Seq<char> {
    header_chars() + seq!['\n']
}

/// A writer that accepts entries and accumulates the associated M3U
/// text. The caller takes the text with [`Writer::flush`] and brings
/// it to its destination.
#[derive(Debug)]
pub struct Writer {
    /// The text written so far.
    out: String,
}

impl View for Writer {
    type V = Seq<char>;

    closed spec fn view(&self) -> Seq<char> {
        self.out@
    }
}

impl Writer {
    /// A writer for the original, non-extended M3U entries. Nothing
    /// is emitted up front.
    pub fn new() -> (r: Writer)
        ensures
            r@ == Seq::<char>::empty(),
    {
        Writer { out: String::new() }
    }

    /// A writer for the extended format. The header line is emitted
    /// immediately.
    pub fn new_ext() -> (r: Writer)
        ensures
            r@ == spec_header_text(),
    {
        let out = String::from_str("#EXTM3U\n");
        proof {
            reveal_strlit("#EXTM3U\n");
            assert(out@ =~= spec_header_text());
        }
        Writer { out }
    }

    /// A writer for IPTV records. The header line is emitted
    /// immediately.
    pub fn new_iptv() -> (r: Writer)
        ensures
            r@ == spec_header_text(),
    {
        Writer::new_ext()
    }

    /// Write one entry: its path or location in plain text, ending
    /// with a newline.
    pub fn write_entry(&mut self, entry: &Entry)
        ensures
            final(self)@ == old(self)@ + spec_entry_line(entry@) + seq!['\n'],
    {
        match entry {
            Entry::Path(p) => self.out.append(p.as_str()),
            Entry::Url(u) => self.out.append(u.as_str()),
        }
        self.out.append("\n");
        proof {
            reveal_strlit("\n");
            assert("\n"@ =~= seq!['\n']);
            assert(self.out@ =~= old(self)@ + spec_entry_line(entry@) + seq!['\n']);
        }
    }

    /// Write one extended entry: first the tag line with the duration
    /// and name, then the entry line.
    pub fn write_entry_ext(&mut self, entry_ext: &EntryExt)
        ensures
            final(self)@ == old(self)@ + spec_ext_tag_line(entry_ext@.extinf) + seq!['\n']
                + spec_entry_line(entry_ext@.entry) + seq!['\n'],
    {
        let ghost at_start = self.out@;
        self.out.append("#EXTINF:");
        self.out.append(entry_ext.extinf.duration_secs.as_str());
        self.out.append(",");
        self.out.append(entry_ext.extinf.name.as_str());
        self.out.append("\n");
        proof {
            reveal_strlit("#EXTINF:");
            reveal_strlit(",");
            reveal_strlit("\n");
            assert("#EXTINF:"@ =~= tag_chars());
            assert(","@ =~= seq![',']);
            assert("\n"@ =~= seq!['\n']);
            assert(self.out@ =~= at_start + spec_ext_tag_line(entry_ext@.extinf) + seq!['\n']);
        }
        self.write_entry_line(Ghost(at_start + spec_ext_tag_line(entry_ext@.extinf) + seq!['\n']),
            &entry_ext.entry);
    }

    /// Write one IPTV record: first its raw tag line, verbatim, then
    /// the entry line.
    pub fn write_entry_iptv(&mut self, entry: &IptvEntry)
        ensures
            final(self)@ == old(self)@ + entry@.raw_extinf + seq!['\n'] + spec_entry_line(
                entry@.entry,
            ) + seq!['\n'],
    {
        let ghost at_start = self.out@;
        self.out.append(entry.raw_extinf.as_str());
        self.out.append("\n");
        proof {
            reveal_strlit("\n");
            assert("\n"@ =~= seq!['\n']);
            assert(self.out@ =~= at_start + entry@.raw_extinf + seq!['\n']);
        }
        self.write_entry_line(Ghost(at_start + entry@.raw_extinf + seq!['\n']), &entry.entry);
    }

    /// Append the entry line.
    fn write_entry_line(&mut self, Ghost(base): Ghost<Seq<char>>, entry: &Entry)
        requires
            old(self)@ == base,
        ensures
            final(self)@ == base + spec_entry_line(entry@) + seq!['\n'],
    {
        match entry {
            Entry::Path(p) => self.out.append(p.as_str()),
            Entry::Url(u) => self.out.append(u.as_str()),
        }
        self.out.append("\n");
        proof {
            reveal_strlit("\n");
            assert("\n"@ =~= seq!['\n']);
            assert(self.out@ =~= base + spec_entry_line(entry@) + seq!['\n']);
        }
    }

    /// Take the accumulated text. This ends the writer; the caller
    /// carries the text to its destination.
    pub fn flush(self) -> (r: String)
        ensures
            r@ == self@,
    {
        self.out
    }
}

} // verus!
