//! crates.io.

use vstd::prelude::*;

use crate::adapters::lang::{is_semantic_version, semantic_version};
use crate::adapters::MAX_RAW_CANDIDATES;
use crate::error::{Error, ErrorKind, ErrorView, failure, verdict};
use crate::text::{
    ascii_alphanumeric_char, chars_of, is_ascii_alphanumeric, is_blank, option_view, take_at_most,
    text_is_blank, views,
};

verus! {

broadcast use crate::text::group_views;

/// Where crates are searched for.
pub const SEARCH_ENDPOINT: &'static str = "https://crates.io/api/v1/crates";

/// How large a response may be, in bytes.
pub const MAX_RESPONSE_BYTES: usize = 2_097_152;

/// A crate as crates.io tells of it.
#[derive(Debug)]
pub struct SearchCrate {
    pub name: Option<String>,
    pub max_version: Option<String>,
    pub description: Option<String>,
}

#[verifier::ext_equal]
pub struct SearchCrateView {
    pub name: Option<Seq<char>>,
    pub max_version: Option<Seq<char>>,
    pub description: Option<Seq<char>>,
}

impl View for SearchCrate {
    type V = SearchCrateView;

    open spec fn view(&self) -> SearchCrateView {
        SearchCrateView {
            name: option_view(self.name),
            max_version: option_view(self.max_version),
            description: option_view(self.description),
        }
    }
}

/// A crate that can be installed.
#[derive(Debug, PartialEq, Eq)]
pub struct CratePackage {
    pub name: String,
    pub version: String,
    pub description: Option<String>,
}

#[verifier::ext_equal]
pub struct CrateView {
    pub name: Seq<char>,
    pub version: Seq<char>,
    pub description: Option<Seq<char>>,
}

impl View for CratePackage {
    type V = CrateView;

    open spec fn view(&self) -> CrateView {
        CrateView {
            name: self.name@,
            version: self.version@,
            description: option_view(self.description),
        }
    }
}

pub open spec fn is_crate_char(c: char) -> bool {
    is_ascii_alphanumeric(c) || c == '-' || c == '_'
}

/// Whether a text can be the name of a crate.
pub open spec fn is_crate_name(name: Seq<char>) -> bool {
    &&& 0 < name.len() <= 64
    &&& name[0] != '-'
    &&& forall|i: int| 0 <= i < name.len() ==> is_crate_char(#[trigger] name[i])
}

pub fn valid_crate_name(name: &str) -> (r: bool)
    ensures
        r == is_crate_name(name@),
{
    let chars = chars_of(name);
    let n: usize = chars.len();
    if n == 0 || n > 64 || chars[0] == '-' {
        return false;
    }
    for i in 0..n
        invariant
            n == chars@.len(),
            chars@ == name@,
            forall|j: int| 0 <= j < i ==> is_crate_char(#[trigger] name@[j]),
    {
        if !(ascii_alphanumeric_char(chars[i]) || chars[i] == '-' || chars[i] == '_') {
            assert(!is_crate_char(name@[i as int]));
            return false;
        }
    }
    true
}

/// The text, unless it is blank.
pub open spec fn unless_blank(text: Option<Seq<char>>) -> Option<Seq<char>> {
    match text {
        Some(text) => if is_blank(text) {
            None
        } else {
            Some(text)
        },
        None => None,
    }
}

pub(crate) fn keep_unless_blank(text: &Option<String>) -> (r: Option<String>)
    ensures
        option_view(r) == unless_blank(option_view(*text)),
{
    match text {
        Some(text) => if text_is_blank(text.as_str()) {
            None
        } else {
            Some(text.clone())
        },
        None => None,
    }
}

/// The crate that an entry tells of, given whether its version is a semantic one:
/// it needs a name that a crate can have, and such a version.
pub open spec fn usable(entry: SearchCrateView, semantic: bool) -> Option<CrateView> {
    match (entry.name, entry.max_version) {
        (Some(name), Some(version)) => if is_crate_name(name) && semantic {
            Some(CrateView { name, version, description: unless_blank(entry.description) })
        } else {
            None
        },
        _ => None,
    }
}

/// The crate that an entry tells of, given whether its version is a semantic one.
pub fn usable_crate(entry: &SearchCrate, semantic: bool) -> (r: Option<CratePackage>)
    ensures
        option_view(r) == usable(entry@, semantic),
{
    match (&entry.name, &entry.max_version) {
        (Some(name), Some(version)) => if valid_crate_name(name.as_str()) && semantic {
            Some(
                CratePackage {
                    name: name.clone(),
                    version: version.clone(),
                    description: keep_unless_blank(&entry.description),
                },
            )
        } else {
            None
        },
        _ => None,
    }
}

/// Whether an entry has a semantic version.
pub open spec fn has_semantic_version(entry: SearchCrateView) -> bool {
    entry.max_version matches Some(version) && semantic_version(version)
}

/// The crates that entries tell of.
pub open spec fn usable_crates(entries: Seq<SearchCrateView>) -> Seq<CrateView>
    decreases entries.len(),
{
    if entries.len() == 0 {
        Seq::empty()
    } else {
        let rest = usable_crates(entries.drop_last());
        match usable(entries.last(), has_semantic_version(entries.last())) {
            Some(found) => rest.push(found),
            None => rest,
        }
    }
}

/// Each crate that entries tell of has a name that a crate can have and a semantic
/// version.
pub proof fn lemma_usable_crates(entries: Seq<SearchCrateView>, i: int)
    requires
        0 <= i < usable_crates(entries).len(),
    ensures
        is_crate_name(usable_crates(entries)[i].name),
        semantic_version(usable_crates(entries)[i].version),
    decreases entries.len(),
{
    if i < usable_crates(entries.drop_last()).len() {
        lemma_usable_crates(entries.drop_last(), i);
    }
}

/// The first crates that the entries of a response tell of.
pub fn parse_response(entries: &Vec<SearchCrate>) -> (r: Vec<CratePackage>)
    ensures
        views(r@) == take_at_most(usable_crates(views(entries@)), MAX_RAW_CANDIDATES as nat),
{
    let ghost all = views(entries@);
    let mut r: Vec<CratePackage> = Vec::new();
    let n: usize = entries.len();
    assert(views(r@) =~= take_at_most(usable_crates(all.take(0)), MAX_RAW_CANDIDATES as nat));
    for i in 0..n
        invariant
            n == entries@.len(),
            all == views(entries@),
            views(r@) == take_at_most(
                usable_crates(all.take(i as int)),
                MAX_RAW_CANDIDATES as nat,
            ),
    {
        proof {
            assert(all.take(i + 1).drop_last() =~= all.take(i as int));
            assert(all.take(i + 1).last() == entries@[i as int]@);
        }
        let semantic = match &entries[i].max_version {
            Some(version) => is_semantic_version(version.as_str()),
            None => false,
        };
        if let Some(package) = usable_crate(&entries[i], semantic) {
            assert(r@.len() == views(r@).len());
            if r.len() < MAX_RAW_CANDIDATES {
                r.push(package);
            }
            assert(views(r@) =~= take_at_most(
                usable_crates(all.take(i + 1)),
                MAX_RAW_CANDIDATES as nat,
            ));
        }
    }
    assert(all.take(n as int) =~= all);
    r
}

// ---------------------------------------------------------------------------
// The size of a response
// ---------------------------------------------------------------------------

pub open spec fn too_large() -> ErrorView {
    failure(ErrorKind::ResponseTooLarge, "crates.io response exceeds the safety limit"@)
}

/// Refuses a response that is announced as too large.
pub fn check_announced_length(length: Option<u64>) -> (r: Result<(), Error>)
    ensures
        verdict(r) == if length is Some && length->0 > MAX_RESPONSE_BYTES {
            Err::<(), ErrorView>(too_large())
        } else {
            Ok(())
        },
{
    if let Some(length) = length {
        if length > MAX_RESPONSE_BYTES as u64 {
            return Err(
                Error::new(
                    ErrorKind::ResponseTooLarge,
                    "crates.io response exceeds the safety limit",
                ),
            );
        }
    }
    Ok(())
}

/// Takes a piece of a response, unless the response grows too large with it.
pub fn append_chunk(body: &mut Vec<u8>, chunk: &Vec<u8>) -> (r: Result<(), Error>)
    ensures
        old(body)@.len() + chunk@.len() <= MAX_RESPONSE_BYTES ==> r is Ok && final(body)@ == old(
            body,
        )@ + chunk@,
        old(body)@.len() + chunk@.len() > MAX_RESPONSE_BYTES ==> verdict(r) == Err::<
            (),
            ErrorView,
        >(too_large()) && final(body)@ == old(body)@,
{
    let n: usize = chunk.len();
    let held: usize = body.len();
    if held > MAX_RESPONSE_BYTES || n > MAX_RESPONSE_BYTES - held {
        return Err(
            Error::new(
                ErrorKind::ResponseTooLarge,
                "crates.io response exceeds the safety limit",
            ),
        );
    }
    let ghost before = body@;
    for i in 0..n
        invariant
            n == chunk@.len(),
            body@ == before + chunk@.take(i as int),
    {
        body.push(chunk[i]);
        assert(body@ =~= before + chunk@.take(i + 1));
    }
    assert(chunk@.take(n as int) =~= chunk@);
    Ok(())
}

/// Entries are read one by one: an entry is a crate if and only if it has a name that a
/// crate can have and a semantic version; a blank description is none.
pub proof fn law_entries_are_read(entries: Seq<SearchCrateView>, entry: SearchCrateView)
    ensures
        usable_crates(Seq::empty()) == Seq::<CrateView>::empty(),
        (entry.name matches Some(name) && is_crate_name(name)) && (
        entry.max_version matches Some(version) && semantic_version(version)) ==> {
            let after = usable_crates(entries.push(entry));
            let last = after.last();
            &&& after == usable_crates(entries).push(last)
            &&& Some(last.name) == entry.name
            &&& Some(last.version) == entry.max_version
            &&& last.description == if (entry.description matches Some(text) && !is_blank(text)) {
                entry.description
            } else {
                None
            }
        },
        !((entry.name matches Some(name) && is_crate_name(name)) && (
        entry.max_version matches Some(version) && semantic_version(version))) ==> usable_crates(
            entries.push(entry),
        ) == usable_crates(entries),
{
    assert(entries.push(entry).drop_last() =~= entries);
}

/// The name of a crate has one to sixty-four characters, which are letters and digits
/// of ASCII, hyphens and underscores, and does not begin with a hyphen.
pub proof fn law_crate_names(name: Seq<char>)
    ensures
        is_crate_name(name) <==> 1 <= name.len() <= 64 && name[0] != '-' && forall|i: int|
            0 <= i < name.len() ==> ('a' <= #[trigger] name[i] <= 'z' || 'A' <= name[i] <= 'Z'
                || '0' <= name[i] <= '9' || name[i] == '-' || name[i] == '_'),
{
    if is_crate_name(name) {
        assert forall|i: int| 0 <= i < name.len() implies ('a' <= #[trigger] name[i] <= 'z' || 'A'
            <= name[i] <= 'Z' || '0' <= name[i] <= '9' || name[i] == '-' || name[i] == '_') by {
            assert(is_crate_char(name[i]));
        }
    }
}

} // verus!
