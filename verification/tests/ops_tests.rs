use hydropkg::{
    install_on_probe, install_suggestions, list_installed, search_on_listing, InstallStep,
    ListingEvent, PkgError, ProbeEvent,
};

fn archive_of(name: &str, content: &[u8]) -> Vec<u8> {
    let mut bytes = vec![0u8; 512];
    let name_bytes = name.as_bytes();
    bytes[..name_bytes.len()].copy_from_slice(name_bytes);
    bytes[100..108].copy_from_slice(b"0000755\0");
    let size_field = format!("{:011o}", content.len());
    bytes[124..135].copy_from_slice(size_field.as_bytes());
    bytes[135] = 0;
    bytes[156] = b'0';
    bytes.extend_from_slice(content);
    let padding = (512 - content.len() % 512) % 512;
    bytes.extend(std::iter::repeat(0u8).take(padding));
    bytes.extend(std::iter::repeat(0u8).take(1024));
    zstd::stream::encode_all(&bytes[..], 0).unwrap()
}

#[test]
fn probe_miss_asks_for_the_listing() {
    let step = install_on_probe(&"nginx".to_string(), ProbeEvent::NotFound, &String::new());
    assert!(matches!(step, InstallStep::NeedListing));
}

#[test]
fn probe_transport_failure_is_a_network_error() {
    let step = install_on_probe(
        &"nginx".to_string(),
        ProbeEvent::TransportFailed,
        &String::new(),
    );
    assert!(matches!(step, InstallStep::Fail { error: PkgError::NetworkError }));
}

#[test]
fn missed_install_reports_not_found_with_suggestions() {
    let body = "<html><a href=\"nginx-1.20.pkg.tar.zst\">x</a>\
        <a href=\"nginx-mainline-1.21.pkg.tar.zst\">y</a>\
        <a href=\"apache-2.4.pkg.tar.zst\">z</a></html>";
    let report = install_suggestions(
        &"nginx".to_string(),
        &ListingEvent::Markup(body.to_string()),
    );
    assert_eq!(report.error, PkgError::PackageNotFound);
    let mut suggestions = report.suggestions;
    suggestions.sort();
    assert_eq!(
        suggestions,
        vec!["nginx-1.20".to_string(), "nginx-mainline-1.21".to_string()]
    );
}

#[test]
fn missed_install_without_a_listing_has_no_suggestions() {
    let report = install_suggestions(&"nginx".to_string(), &ListingEvent::TransportFailed);
    assert_eq!(report.error, PkgError::PackageNotFound);
    assert!(report.suggestions.is_empty());
    let report = install_suggestions(&"nginx".to_string(), &ListingEvent::Unreadable);
    assert_eq!(report.error, PkgError::PackageNotFound);
    assert!(report.suggestions.is_empty());
}

#[test]
fn search_on_markup_lists_matches() {
    let body = "<html><a href=\"foo-1.0.pkg.tar.zst\">x</a>\
        <a href=\"baz-1.0.pkg.tar.zst\">y</a></html>";
    let found = search_on_listing(
        &"foo".to_string(),
        &ListingEvent::Markup(body.to_string()),
    )
    .unwrap();
    assert_eq!(found, vec!["foo-1.0".to_string()]);
}

#[test]
fn search_on_unreadable_listing_is_a_format_error() {
    let r = search_on_listing(&"foo".to_string(), &ListingEvent::Unreadable);
    assert_eq!(r, Err(PkgError::IndexFormatError));
}

#[test]
fn search_on_transport_failure_is_a_network_error() {
    let r = search_on_listing(&"foo".to_string(), &ListingEvent::TransportFailed);
    assert_eq!(r, Err(PkgError::NetworkError));
}

#[test]
fn successful_install_is_listed_immediately() {
    let archive = archive_of("hello", b"#!/bin/sh\n");
    let manifest = "other\n".to_string();
    let step = install_on_probe(&"hello".to_string(), ProbeEvent::Body(archive), &manifest);
    match step {
        InstallStep::Install { entries, manifest } => {
            assert_eq!(entries.len(), 1);
            assert_eq!(entries[0].path, b"hello".to_vec());
            let mut listed = list_installed(&manifest);
            listed.sort();
            assert_eq!(listed, vec!["hello".to_string(), "other".to_string()]);
        },
        _ => panic!("expected an install step"),
    }
}

#[test]
fn failed_extraction_records_nothing() {
    let step = install_on_probe(
        &"hello".to_string(),
        ProbeEvent::Body(b"garbage".to_vec()),
        &"other\n".to_string(),
    );
    assert!(matches!(step, InstallStep::Fail { error: PkgError::CorruptArchive }));
}

#[test]
fn unsafe_archive_fails_the_install() {
    let archive = archive_of("../../etc/passwd", b"oops");
    let step = install_on_probe(&"evil".to_string(), ProbeEvent::Body(archive), &String::new());
    assert!(matches!(step, InstallStep::Fail { error: PkgError::UnsafePath }));
}
