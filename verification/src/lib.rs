//! A minimal package-manager client library: resolving a package name
//! against a remote mirror's directory listing, validating and unpacking
//! downloaded archives, and keeping a manifest of installed packages.
//!
//! All network and filesystem traffic stays with the caller; the functions
//! here compute on plain values (listing markup, archive bytes, manifest
//! text) and say in their contracts exactly what they decide.

mod archive;
mod errors;
mod index;
mod manifest;
mod ops;
mod text;

pub use archive::{check_path_safe, digit_run, dotdot_at, extract_archive, extract_model,
    is_octal_digit, is_zero_block, octal_value, parse_entries, parse_header, parse_octal_field,
    parse_tar, round_up_512, safe_path, until_nul, zstd_decoded, EntryKind, EntryModel,
    HeaderModel, TarEntry};
pub use errors::PkgError;
pub use index::{archive_suffix, hrefs_of, index_of, search_listing, stripped, suggestion_set};
pub use manifest::{lemma_record_installed_idempotent, lemma_removed_not_listed, lines_of,
    list_installed, manifest_set, record_installed, record_removed, split_lines, valid_name};
pub use ops::{install_on_probe, install_suggestions, lemma_install_then_listed, remove_step,
    search_on_listing, InstallStep, ListingEvent, NotFoundReport, ProbeEvent, RemovePlan};
pub use text::{contains_substr, contains_string, ends_with_str, has_suffix, is_substring,
    occurs_at};
