//! The install and remove operations.
//!
//! The caller performs the network and filesystem traffic and reports each
//! outcome as a plain event; the functions here take the decisions.  An
//! install first probes the archive directly; only when the probe answers
//! "not found" is the full listing fetched, to offer suggestions.  A
//! successful extraction is recorded in the manifest; a failed one never
//! is.

use vstd::prelude::*;
use crate::archive::{extract_archive, extract_model, EntryModel, TarEntry};
use crate::archive::safe_path;
use crate::errors::PkgError;
use crate::index::{hrefs_of, index_of, search_listing, suggestion_set};
use crate::manifest::{manifest_set, record_installed, record_removed, valid_name};

verus! {

/// What the direct probe of a package's archive answered.
pub enum ProbeEvent {
    /// The archive exists; these are its bytes.
    Body(Vec<u8>),
    /// The mirror answered with a non-success status.
    NotFound,
    /// The transport failed before any status arrived.
    TransportFailed,
}

/// What fetching the mirror's directory listing answered.
pub enum ListingEvent {
    /// The listing arrived as markup.
    Markup(String),
    /// The listing arrived but could not be read as markup.
    Unreadable,
    /// The transport failed before any listing arrived.
    TransportFailed,
}

/// The next action of an install: materialize the entries and persist the
/// new manifest, fetch the listing to offer suggestions, or give up.
pub enum InstallStep {
    Install { entries: Vec<TarEntry>, manifest: String },
    NeedListing,
    Fail { error: PkgError },
}

/// The outcome of a failed resolution: the error, and the index entries
/// offered instead.
pub struct NotFoundReport {
    pub error: PkgError,
    pub suggestions: Vec<String>,
}

/// What a removal asks the caller to do: persist the new manifest text and
/// delete the package's conventional artifact under the install root.
pub struct RemovePlan {
    pub manifest: String,
    pub artifact: String,
}

/// Decide an install from the probe's answer.  A transport failure aborts;
/// a miss asks for the listing; an archive is extracted and, only if every
/// entry is valid and safe, recorded in the manifest.
pub fn install_on_probe(name: &String, probe: ProbeEvent, manifest_text: &String) -> (r:
    InstallStep)
    requires
        valid_name(name@),
    ensures
        probe is NotFound ==> r is NeedListing,
        probe is TransportFailed ==> r == (InstallStep::Fail { error: PkgError::NetworkError }),
        probe matches ProbeEvent::Body(b) ==> match extract_model(b@) {
            Result::Err(e) => r == (InstallStep::Fail { error: e }),
            Result::Ok(es) => (r matches InstallStep::Install { entries, manifest }
                && entries.deep_view() == es && (forall|k: int|
                0 <= k < es.len() ==> safe_path(#[trigger] es[k].path)) && manifest_set(manifest@)
                == manifest_set(manifest_text@).insert(name@)),
        },
{
    match probe {
        ProbeEvent::TransportFailed => InstallStep::Fail { error: PkgError::NetworkError },
        ProbeEvent::NotFound => InstallStep::NeedListing,
        ProbeEvent::Body(bytes) => match extract_archive(&bytes) {
            Err(e) => InstallStep::Fail { error: e },
            Ok(entries) => {
                let manifest = record_installed(manifest_text, name);
                InstallStep::Install { entries, manifest }
            },
        },
    }
}

/// Report a missed install: the error is always `PackageNotFound`, and the
/// suggestions are exactly the index entries containing the name when the
/// listing arrived, and empty when it did not.
pub fn install_suggestions(name: &String, listing: &ListingEvent) -> (r: NotFoundReport)
    ensures
        r.error == PkgError::PackageNotFound,
        listing matches ListingEvent::Markup(b) ==> (forall|k: int|
            0 <= k < r.suggestions@.len() ==> suggestion_set(
                index_of(hrefs_of(b@)),
                name@,
            ).contains(#[trigger] r.suggestions.deep_view()[k])) && (forall|n: Seq<char>|
            #[trigger] suggestion_set(index_of(hrefs_of(b@)), name@).contains(n)
                ==> r.suggestions.deep_view().contains(n)),
        !(listing matches ListingEvent::Markup(_)) ==> r.suggestions@.len() == 0,
{
    match listing {
        ListingEvent::Markup(b) => NotFoundReport {
            error: PkgError::PackageNotFound,
            suggestions: search_listing(b.as_str(), name.as_str()),
        },
        _ => NotFoundReport { error: PkgError::PackageNotFound, suggestions: Vec::new() },
    }
}

/// Decide a removal from the manifest text.  A name the manifest does not
/// hold fails with `NotInstalled` and changes nothing; otherwise the new
/// text drops exactly that name, and the artifact to delete is the one
/// conventionally named after the package.  A missing artifact on disk is
/// not an error, so the plan names it unconditionally.
pub fn remove_step(name: &String, manifest_text: &String) -> (r: Result<RemovePlan, PkgError>)
    requires
        valid_name(name@),
    ensures
        manifest_set(manifest_text@).contains(name@) <==> r is Ok,
        r matches Ok(p) ==> manifest_set(p.manifest@) == manifest_set(manifest_text@).remove(
            name@,
        ) && p.artifact@ == name@,
        r matches Err(e) ==> e == PkgError::NotInstalled,
{
    match record_removed(manifest_text, name) {
        Ok(m) => Ok(RemovePlan { manifest: m, artifact: name.clone() }),
        Err(e) => Err(e),
    }
}

/// Decide a search from the listing fetch's answer: the matching names on
/// a listing that arrived, `IndexFormatError` on one that could not be
/// read as markup, `NetworkError` on a transport failure.
pub fn search_on_listing(query: &String, listing: &ListingEvent) -> (r: Result<
    Vec<String>,
    PkgError,
>)
    ensures
        listing matches ListingEvent::Markup(b) ==> (r matches Ok(v) && (forall|k: int|
            0 <= k < v@.len() ==> suggestion_set(index_of(hrefs_of(b@)), query@).contains(
                #[trigger] v.deep_view()[k],
            )) && (forall|n: Seq<char>|
            #[trigger] suggestion_set(index_of(hrefs_of(b@)), query@).contains(n)
                ==> v.deep_view().contains(n)) && (forall|k1: int, k2: int|
            0 <= k1 < k2 < v@.len() ==> v.deep_view()[k1] != v.deep_view()[k2])),
        listing is Unreadable ==> r == Result::Err::<Vec<String>, PkgError>(
            PkgError::IndexFormatError,
        ),
        listing is TransportFailed ==> r == Result::Err::<Vec<String>, PkgError>(
            PkgError::NetworkError,
        ),
{
    match listing {
        ListingEvent::Markup(b) => Ok(search_listing(b.as_str(), query.as_str())),
        ListingEvent::Unreadable => Err(PkgError::IndexFormatError),
        ListingEvent::TransportFailed => Err(PkgError::NetworkError),
    }
}

/// The install round-trip law: an install that reaches its `Install` step
/// yields a manifest that lists the installed name.
pub proof fn lemma_install_then_listed(
    old_text: Seq<char>,
    new_text: Seq<char>,
    name: Seq<char>,
)
    requires
        manifest_set(new_text) == manifest_set(old_text).insert(name),
    ensures
        manifest_set(new_text).contains(name),
{
}

} // verus!
