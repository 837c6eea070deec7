//! Reading and writing of the **M3U** multimedia-playlist text format,
//! including the extended (`#EXTM3U`) form and IPTV attribute lists.
//!
//! The format has no formal specification: lines are classified as
//! header, comment, tag or entry lines, and the attribute lists on tag
//! lines are disambiguated with local lookahead heuristics.
//!
//! Network locations are carried as their canonical serialization, the
//! exact text that the `url` crate produces for them; paths are carried
//! verbatim. Durations are carried as the decimal text that appears on
//! the tag line.

use vstd::prelude::*;
use vstd::string::*;

pub mod iptv;
pub mod numtext;
pub mod read;
pub mod roundtrip;
pub mod text;
pub mod write;

verus! {

/// What `url::Url::parse` makes of a line: `None` when it rejects the
/// text, otherwise the serialization of the parsed location.
pub uninterp spec fn url_normal(s: Seq<char>) -> Option<Seq<char>>;

/// Whether `url::Url::parse` accepts the text with a host component
/// present, per `url::Url::host_str`.
pub uninterp spec fn url_host_ok(s: Seq<char>) -> bool;

/// Relies on `url::Url::parse`, `url::Url::host_str` and the stored
/// serialization taken by `String::from`. The `url` crate maintains as
/// an invariant of every parsed value that reparsing its serialization
/// succeeds, yields the same serialization, and keeps the host when one
/// is present.
#[verifier::external_body]
pub(crate) fn parse_url(s: &str) -> (r: Option<(String, bool)>)
    ensures
        r is Some <==> url_normal(s@) is Some,
        r matches Some(p) ==> url_normal(s@) == Some(p.0@),
        r matches Some(p) ==> p.1 == url_host_ok(s@),
        r matches Some(p) ==> url_normal(p.0@) == Some(p.0@),
        r matches Some(p) ==> (p.1 ==> url_host_ok(p.0@)),
        r is None ==> !url_host_ok(s@),
{
    match url::Url::parse(s) {
        Ok(u) => {
            let has_host = u.host_str().is_some();
            Some((String::from(u), has_host))
        },
        Err(_) => None,
    }
}

/// Mathematical shape of an [`Entry`]: the text of a path, or the
/// canonical text of a network location.
pub enum EntryView {
    Path(Seq<char>),
    Url(Seq<char>),
}

/// An entry in an **M3U** multimedia playlist: the source of the media.
///
/// A `Path` may be relative or absolute and is kept verbatim. A `Url`
/// holds the canonical serialization of a network location.
#[derive(Debug, Clone)]
pub enum Entry {
    Path(String),
    Url(String),
}

impl View for Entry {
    type V = EntryView;

    open spec fn view(&self) -> EntryView {
        match self {
            Entry::Path(p) => EntryView::Path(p@),
            Entry::Url(u) => EntryView::Url(u@),
        }
    }
}

impl PartialEq for Entry {
    fn eq(&self, other: &Entry) -> (r: bool) {
        match (self, other) {
            (Entry::Path(a), Entry::Path(b)) => *a == *b,
            (Entry::Url(a), Entry::Url(b)) => *a == *b,
            _ => false,
        }
    }
}

impl vstd::std_specs::cmp::PartialEqSpecImpl for Entry {
    open spec fn obeys_eq_spec() -> bool {
        true
    }

    open spec fn eq_spec(&self, other: &Entry) -> bool {
        self@ == other@
    }
}

impl Entry {
    /// Whether or not the `Entry` is a `Path`.
    pub fn is_path(&self) -> (r: bool)
        ensures
            r == (self@ is Path),
    {
        match self {
            Entry::Path(_) => true,
            Entry::Url(_) => false,
        }
    }

    /// Whether or not the `Entry` is a `Url`.
    pub fn is_url(&self) -> (r: bool)
        ensures
            r == (self@ is Url),
    {
        match self {
            Entry::Url(_) => true,
            Entry::Path(_) => false,
        }
    }

    /// Extend the entry with extra information: the duration, given as
    /// the decimal text that goes on the tag line, and a name.
    pub fn extend(self, duration_secs: &str, name: &str) -> (r: EntryExt)
        ensures
            r@ == (EntryExtView {
                entry: self@,
                extinf: ExtInfView { duration_secs: duration_secs@, name: name@ },
            }),
    {
        EntryExt {
            extinf: ExtInf {
                duration_secs: String::from_str(duration_secs),
                name: String::from_str(name),
            },
            entry: self,
        }
    }
}

/// Mathematical shape of an [`ExtInf`].
pub struct ExtInfView {
    pub duration_secs: Seq<char>,
    pub name: Seq<char>,
}

/// Extra information associated with an M3U entry.
#[derive(Debug, Clone)]
pub struct ExtInf {
    /// The duration of the media's runtime in seconds, kept as the
    /// decimal text that appears after the tag. Extended formats
    /// specify live streams with a `-1` duration.
    pub duration_secs: String,
    /// The name of the media.
    pub name: String,
}

impl View for ExtInf {
    type V = ExtInfView;

    open spec fn view(&self) -> ExtInfView {
        ExtInfView { duration_secs: self.duration_secs@, name: self.name@ }
    }
}

impl PartialEq for ExtInf {
    fn eq(&self, other: &ExtInf) -> (r: bool) {
        self.duration_secs == other.duration_secs && self.name == other.name
    }
}

impl vstd::std_specs::cmp::PartialEqSpecImpl for ExtInf {
    open spec fn obeys_eq_spec() -> bool {
        true
    }

    open spec fn eq_spec(&self, other: &ExtInf) -> bool {
        self@ == other@
    }
}

/// Mathematical shape of an [`EntryExt`].
pub struct EntryExtView {
    pub entry: EntryView,
    pub extinf: ExtInfView,
}

/// An entry with some associated extra information.
#[derive(Debug, Clone)]
pub struct EntryExt {
    /// The M3U entry. Can be either a `Path` or `Url`.
    pub entry: Entry,
    /// Extra information associated with the M3U entry.
    pub extinf: ExtInf,
}

impl View for EntryExt {
    type V = EntryExtView;

    open spec fn view(&self) -> EntryExtView {
        EntryExtView { entry: self.entry@, extinf: self.extinf@ }
    }
}

impl PartialEq for EntryExt {
    fn eq(&self, other: &EntryExt) -> (r: bool) {
        self.entry == other.entry && self.extinf == other.extinf
    }
}

impl vstd::std_specs::cmp::PartialEqSpecImpl for EntryExt {
    open spec fn obeys_eq_spec() -> bool {
        true
    }

    open spec fn eq_spec(&self, other: &EntryExt) -> bool {
        self@ == other@
    }
}

/// The given text could not be parsed as a network location.
#[derive(Debug, Clone, PartialEq, Eq, Structural)]
pub struct UrlParseError;

/// A helper function to simplify creation of the `Entry`'s `Path` variant.
pub fn path_entry(path: &str) -> (r: Entry)
    ensures
        r@ == EntryView::Path(path@),
{
    Entry::Path(String::from_str(path))
}

/// A helper function to simplify creation of the `Entry`'s `Url` variant.
///
/// The text must parse as a network location; the entry then holds its
/// canonical serialization.
pub fn url_entry(url: &str) -> (r: Result<Entry, UrlParseError>)
    ensures
        r is Ok <==> url_normal(url@) is Some,
        r matches Ok(e) ==> e@ == EntryView::Url(url_normal(url@)->0),
        r matches Ok(e) ==> e@ matches EntryView::Url(u) && url_normal(u) == Some(u),
{
    match parse_url(url) {
        Some((text, _)) => Ok(Entry::Url(text)),
        None => Err(UrlParseError),
    }
}

} // verus!
