//! IPTV extension: entries whose extended-info line carries a
//! `key="value"` attribute list.
//!
//! The attribute text of a record is kept verbatim, and its structured
//! interpretation is computed at most once, on first access, and cached
//! thereafter; a failed interpretation keeps the original text.

use vstd::prelude::*;
use vstd::string::*;

pub mod iptv_props;
pub mod parse_extinf;

pub use iptv_props::IptvProps;
pub use parse_extinf::parse_extinf;

use self::iptv_props::spec_props_text;
use self::parse_extinf::spec_parse_extinf;
use crate::text::str_eq;
use crate::{Entry, EntryExt, EntryView};

verus! {

/// Mathematical shape of an [`IptvExtInf`].
pub struct IptvExtInfView {
    pub duration_secs: Seq<char>,
    pub name: Seq<char>,
    pub iptv_props: Seq<(Seq<char>, Seq<char>)>,
}

/// Extra information associated with an M3U entry, with the IPTV
/// attribute list.
#[derive(Debug)]
pub struct IptvExtInf {
    /// The duration of the media's runtime in seconds, kept as the
    /// decimal text that appears after the tag. Extended formats
    /// specify live streams with a `-1` duration.
    pub duration_secs: String,
    /// The name of the media.
    pub name: String,
    /// The properties for IPTV compatible players.
    pub iptv_props: IptvProps,
}

impl View for IptvExtInf {
    type V = IptvExtInfView;

    open spec fn view(&self) -> IptvExtInfView {
        IptvExtInfView {
            duration_secs: self.duration_secs@,
            name: self.name@,
            iptv_props: self.iptv_props@,
        }
    }
}

impl PartialEq for IptvExtInf {
    fn eq(&self, other: &IptvExtInf) -> (r: bool) {
        str_eq(self.duration_secs.as_str(), other.duration_secs.as_str()) && str_eq(
            self.name.as_str(),
            other.name.as_str(),
        ) && self.iptv_props == other.iptv_props
    }
}

impl vstd::std_specs::cmp::PartialEqSpecImpl for IptvExtInf {
    open spec fn obeys_eq_spec() -> bool {
        true
    }

    open spec fn eq_spec(&self, other: &IptvExtInf) -> bool {
        self@ == other@
    }
}

impl Clone for IptvExtInf {
    fn clone(&self) -> (r: IptvExtInf)
        ensures
            r@ == self@,
    {
        IptvExtInf {
            duration_secs: self.duration_secs.clone(),
            name: self.name.clone(),
            iptv_props: self.iptv_props.clone(),
        }
    }
}

/// The serialized form of an extended-info line: the tag, the
/// duration, the attribute list, a comma and the name.
pub open spec fn spec_extinf_text(x: IptvExtInfView) -> Seq<char> {
    "#EXTINF:"@ + x.duration_secs + spec_props_text(x.iptv_props) + seq![','] + x.name
}

impl IptvExtInf {
    pub fn new(duration_secs: &str, name: String, iptv_props: IptvProps) -> (r: Self)
        ensures
            r@ == (IptvExtInfView {
                duration_secs: duration_secs@,
                name: name@,
                iptv_props: iptv_props@,
            }),
    {
        IptvExtInf { duration_secs: String::from_str(duration_secs), name, iptv_props }
    }

    /// The extended-info line this value serializes to.
    fn to_string(&self) -> (r: String)
        ensures
            r@ == spec_extinf_text(self@),
    {
        let mut out = String::from_str("#EXTINF:");
        out.append(self.duration_secs.as_str());
        let props = self.iptv_props.to_string();
        out.append(props.as_str());
        out.append(",");
        out.append(self.name.as_str());
        proof {
            reveal_strlit(",");
            assert(","@ =~= seq![',']);
            assert(out@ =~= spec_extinf_text(self@));
        }
        out
    }
}

/// The attribute text of a record could not be interpreted; the
/// original text is carried unmodified.
#[derive(Debug)]
pub struct ParseExtInfError(String);

impl View for ParseExtInfError {
    type V = Seq<char>;

    closed spec fn view(&self) -> Seq<char> {
        self.0@
    }
}

impl PartialEq for ParseExtInfError {
    fn eq(&self, other: &ParseExtInfError) -> (r: bool) {
        str_eq(self.0.as_str(), other.0.as_str())
    }
}

impl vstd::std_specs::cmp::PartialEqSpecImpl for ParseExtInfError {
    open spec fn obeys_eq_spec() -> bool {
        true
    }

    open spec fn eq_spec(&self, other: &ParseExtInfError) -> bool {
        self@ == other@
    }
}

impl Clone for ParseExtInfError {
    fn clone(&self) -> (r: ParseExtInfError)
        ensures
            r@ == self@,
    {
        ParseExtInfError(self.0.clone())
    }
}

/// What interpreting the attribute text yields: the structured form,
/// or the unmodified text when it cannot be interpreted.
pub open spec fn spec_parse_outcome(raw: Seq<char>) -> Result<IptvExtInfView, Seq<char>> {
    match spec_parse_extinf(raw) {
        Some(x) => Ok(x),
        None => Err(raw),
    }
}

/// The cache slot of a record, as views.
pub open spec fn parsed_view(p: Option<Result<IptvExtInf, ParseExtInfError>>) -> Option<
    Result<IptvExtInfView, Seq<char>>,
> {
    match p {
        None => None,
        Some(Ok(x)) => Some(Ok(x@)),
        Some(Err(e)) => Some(Err(e@)),
    }
}

/// A parse result, as views.
pub open spec fn result_view(p: Result<IptvExtInf, ParseExtInfError>) -> Result<
    IptvExtInfView,
    Seq<char>,
> {
    match p {
        Ok(x) => Ok(x@),
        Err(e) => Err(e@),
    }
}

/// Mathematical shape of an [`IptvEntry`].
pub struct IptvEntryView {
    pub entry: EntryView,
    pub parsed_extinf: Option<Result<IptvExtInfView, Seq<char>>>,
    pub raw_extinf: Seq<char>,
}

/// What accessing the structured interpretation of a record yields:
/// the cached result if one is present, else the interpretation of
/// the raw text.
pub open spec fn spec_parsed_outcome(m: IptvEntryView) -> Result<IptvExtInfView, Seq<char>> {
    match m.parsed_extinf {
        Some(p) => p,
        None => spec_parse_outcome(m.raw_extinf),
    }
}

/// An entry of an IPTV playlist: the media source, the exact text
/// that followed the extended-info tag, and the memoized structured
/// interpretation of that text.
#[derive(Debug)]
pub struct IptvEntry {
    /// The M3U entry. Can be either a `Path` or `Url`.
    pub entry: Entry,
    /// The structured interpretation, computed at most once.
    pub parsed_extinf: Option<Result<IptvExtInf, ParseExtInfError>>,
    /// The exact text that followed the tag.
    pub raw_extinf: String,
}

impl View for IptvEntry {
    type V = IptvEntryView;

    open spec fn view(&self) -> IptvEntryView {
        IptvEntryView {
            entry: self.entry@,
            parsed_extinf: parsed_view(self.parsed_extinf),
            raw_extinf: self.raw_extinf@,
        }
    }
}

/// Two records are the same when their entries are equal and either
/// their raw texts or their structured interpretations are: semantic
/// equivalence is recognized despite superficial text differences
/// once both sides have been interpreted.
pub open spec fn record_eq(a: IptvEntryView, b: IptvEntryView) -> bool {
    a.entry == b.entry && (a.raw_extinf == b.raw_extinf || a.parsed_extinf == b.parsed_extinf)
}

fn parsed_slot_eq(
    a: &Option<Result<IptvExtInf, ParseExtInfError>>,
    b: &Option<Result<IptvExtInf, ParseExtInfError>>,
) -> (r: bool)
    ensures
        r == (parsed_view(*a) == parsed_view(*b)),
{
    match (a, b) {
        (None, None) => true,
        (Some(Ok(x)), Some(Ok(y))) => x == y,
        (Some(Err(x)), Some(Err(y))) => x == y,
        _ => false,
    }
}

impl PartialEq for IptvEntry {
    fn eq(&self, other: &IptvEntry) -> (r: bool) {
        self.entry == other.entry && (str_eq(self.raw_extinf.as_str(), other.raw_extinf.as_str())
            || parsed_slot_eq(&self.parsed_extinf, &other.parsed_extinf))
    }
}

impl vstd::std_specs::cmp::PartialEqSpecImpl for IptvEntry {
    open spec fn obeys_eq_spec() -> bool {
        true
    }

    open spec fn eq_spec(&self, other: &IptvEntry) -> bool {
        record_eq(self@, other@)
    }
}

impl IptvEntry {
    /// The structured interpretation of the raw attribute text,
    /// computed on first access and cached: a later access returns
    /// the stored result and never recomputes.
    pub fn parsed_extinf(&mut self) -> (r: Result<IptvExtInf, ParseExtInfError>)
        ensures
            result_view(r) == spec_parsed_outcome(old(self)@),
            final(self)@.parsed_extinf == Some(spec_parsed_outcome(old(self)@)),
            final(self)@.entry == old(self)@.entry,
            final(self)@.raw_extinf == old(self)@.raw_extinf,
    {
        if self.parsed_extinf.is_none() {
            let computed: Result<IptvExtInf, ParseExtInfError> = match parse_extinf(
                self.raw_extinf.as_str(),
            ) {
                Some(x) => Ok(x),
                None => Err(ParseExtInfError(self.raw_extinf.clone())),
            };
            self.parsed_extinf = Some(computed);
        }
        let p = self.parsed_extinf.as_ref().unwrap();
        match p {
            Ok(x) => Ok(x.clone()),
            Err(e) => Err(e.clone()),
        }
    }
}

/// Interpreting the same raw attribute text twice yields identical
/// results: the first access stores the interpretation of the raw
/// text, and an access to the filled record yields that same stored
/// result again.
pub proof fn lemma_parsed_extinf_idempotent(m: IptvEntryView)
    requires
        m.parsed_extinf is None,
    ensures
        spec_parsed_outcome(m) == spec_parse_outcome(m.raw_extinf),
        spec_parsed_outcome(
            IptvEntryView {
                entry: m.entry,
                parsed_extinf: Some(spec_parsed_outcome(m)),
                raw_extinf: m.raw_extinf,
            },
        ) == spec_parsed_outcome(m),
{
}

/// A record built from unambiguous structured parts carries raw text
/// that interprets back to exactly those parts: even with its cache
/// cleared, accessing the structured form recovers what the record
/// was built from.
pub proof fn lemma_serialized_raw_parses_back(x: IptvExtInfView)
    requires
        parse_extinf::wf_serialized_extinf(x),
    ensures
        spec_parse_outcome(spec_extinf_text(x)) == Result::<IptvExtInfView, Seq<char>>::Ok(x),
{
    parse_extinf::lemma_parse_of_serialized(x);
}

impl EntryExt {
    /// Add IPTV properties to this extended information. The record
    /// carries the serialized line as its raw text and the structured
    /// form as its already-filled interpretation.
    pub fn with_iptv(self, props: IptvProps) -> (r: IptvEntry)
        ensures
            r@.entry == self@.entry,
            r@.parsed_extinf == Some(
                Result::<IptvExtInfView, Seq<char>>::Ok(
                    IptvExtInfView {
                        duration_secs: self@.extinf.duration_secs,
                        name: self@.extinf.name,
                        iptv_props: props@,
                    },
                ),
            ),
            r@.raw_extinf == spec_extinf_text(
                IptvExtInfView {
                    duration_secs: self@.extinf.duration_secs,
                    name: self@.extinf.name,
                    iptv_props: props@,
                },
            ),
    {
        let parsed = IptvExtInf {
            duration_secs: self.extinf.duration_secs,
            name: self.extinf.name,
            iptv_props: props,
        };
        let raw_extinf = parsed.to_string();
        IptvEntry { entry: self.entry, parsed_extinf: Some(Ok(parsed)), raw_extinf }
    }
}

} // verus!
