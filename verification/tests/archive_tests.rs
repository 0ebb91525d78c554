use hydropkg::{check_path_safe, extract_archive, EntryKind, PkgError};

fn header_block(name: &str, mode: &str, size: usize, typeflag: u8) -> Vec<u8> {
    let mut block = vec![0u8; 512];
    let name_bytes = name.as_bytes();
    block[..name_bytes.len()].copy_from_slice(name_bytes);
    let mode_bytes = mode.as_bytes();
    block[100..100 + mode_bytes.len()].copy_from_slice(mode_bytes);
    let size_field = format!("{:011o}", size);
    block[124..135].copy_from_slice(size_field.as_bytes());
    block[135] = 0;
    block[156] = typeflag;
    block
}

fn file_entry(name: &str, content: &[u8]) -> Vec<u8> {
    let mut bytes = header_block(name, "0000755\0", content.len(), b'0');
    bytes.extend_from_slice(content);
    let padding = (512 - content.len() % 512) % 512;
    bytes.extend(std::iter::repeat(0u8).take(padding));
    bytes
}

fn dir_entry(name: &str) -> Vec<u8> {
    header_block(name, "0000755\0", 0, b'5')
}

fn finish(mut bytes: Vec<u8>) -> Vec<u8> {
    bytes.extend(std::iter::repeat(0u8).take(1024));
    zstd::stream::encode_all(&bytes[..], 0).unwrap()
}

#[test]
fn extracts_a_single_file() {
    let archive = finish(file_entry("bin/foo", b"hello"));
    let entries = extract_archive(&archive).unwrap();
    assert_eq!(entries.len(), 1);
    assert_eq!(entries[0].path, b"bin/foo".to_vec());
    assert_eq!(entries[0].mode, 0o755);
    assert_eq!(entries[0].kind, EntryKind::File);
    assert_eq!(entries[0].content, b"hello".to_vec());
}

#[test]
fn extracts_directories_and_files_in_order() {
    let mut bytes = dir_entry("usr/");
    bytes.extend(file_entry("usr/foo", b"abc"));
    bytes.extend(file_entry("usr/bar", &[7u8; 513]));
    let entries = extract_archive(&finish(bytes)).unwrap();
    assert_eq!(entries.len(), 3);
    assert_eq!(entries[0].kind, EntryKind::Directory);
    assert_eq!(entries[0].path, b"usr/".to_vec());
    assert_eq!(entries[1].content, b"abc".to_vec());
    assert_eq!(entries[2].path, b"usr/bar".to_vec());
    assert_eq!(entries[2].content.len(), 513);
}

#[test]
fn skips_entries_of_other_kinds() {
    let mut bytes = header_block("linkname", "0000644\0", 0, b'2');
    bytes.extend(file_entry("kept", b"x"));
    let entries = extract_archive(&finish(bytes)).unwrap();
    assert_eq!(entries.len(), 1);
    assert_eq!(entries[0].path, b"kept".to_vec());
}

#[test]
fn traversal_path_is_unsafe() {
    let archive = finish(file_entry("../../etc/passwd", b"oops"));
    assert!(matches!(extract_archive(&archive), Err(PkgError::UnsafePath)));
}

#[test]
fn absolute_path_is_unsafe() {
    let archive = finish(file_entry("/etc/passwd", b"oops"));
    assert!(matches!(extract_archive(&archive), Err(PkgError::UnsafePath)));
}

#[test]
fn inner_traversal_component_is_unsafe() {
    let archive = finish(file_entry("usr/../../../sbin/x", b"oops"));
    assert!(matches!(extract_archive(&archive), Err(PkgError::UnsafePath)));
}

#[test]
fn not_zstd_framing_is_corrupt() {
    let archive = b"definitely not a zstd stream".to_vec();
    assert!(matches!(extract_archive(&archive), Err(PkgError::CorruptArchive)));
}

#[test]
fn truncated_block_is_corrupt() {
    let bytes = vec![1u8; 100];
    let archive = zstd::stream::encode_all(&bytes[..], 0).unwrap();
    assert!(matches!(extract_archive(&archive), Err(PkgError::CorruptArchive)));
}

#[test]
fn size_running_past_the_stream_is_corrupt() {
    let mut bytes = header_block("foo", "0000644\0", 4096, b'0');
    bytes.extend(std::iter::repeat(0u8).take(512));
    let archive = zstd::stream::encode_all(&bytes[..], 0).unwrap();
    assert!(matches!(extract_archive(&archive), Err(PkgError::CorruptArchive)));
}

#[test]
fn malformed_size_field_is_corrupt() {
    let mut block = header_block("foo", "0000644\0", 0, b'0');
    block[124] = b'9';
    let mut bytes = block;
    bytes.extend(std::iter::repeat(0u8).take(1024));
    let archive = zstd::stream::encode_all(&bytes[..], 0).unwrap();
    assert!(matches!(extract_archive(&archive), Err(PkgError::CorruptArchive)));
}

#[test]
fn empty_stream_has_no_entries() {
    let archive = zstd::stream::encode_all(&[][..], 0).unwrap();
    assert!(extract_archive(&archive).unwrap().is_empty());
}

#[test]
fn nothing_outside_the_root_is_handed_out() {
    let mut bytes = file_entry("safe", b"ok");
    bytes.extend(file_entry("../escape", b"oops"));
    let archive = finish(bytes);
    assert!(matches!(extract_archive(&archive), Err(PkgError::UnsafePath)));
}

#[test]
fn path_safety_rules() {
    assert!(check_path_safe(&b"usr/bin/foo".to_vec()));
    assert!(check_path_safe(&b"a..b".to_vec()));
    assert!(check_path_safe(&b"..hidden/x".to_vec()));
    assert!(!check_path_safe(&b"..".to_vec()));
    assert!(!check_path_safe(&b"../x".to_vec()));
    assert!(!check_path_safe(&b"a/../b".to_vec()));
    assert!(!check_path_safe(&b"a/..".to_vec()));
    assert!(!check_path_safe(&b"/absolute".to_vec()));
    assert!(!check_path_safe(&b"".to_vec()));
}
