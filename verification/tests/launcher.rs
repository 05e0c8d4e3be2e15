use repotower::payload::{
    archive_admitted, cached_file_valid, digest_key, entry_admitted, payload_footer,
    payload_intact, read_limit, safe_path, seek_position, ArchivePathError, ExtractError,
    FooterError, SeekFrom,
};
use std::path::PathBuf;

#[test]
fn rejects_absolute_parent_and_windows_escape_paths() {
    for path in [
        "../x",
        "a/../../x",
        "a\\..\\x",
        "/x",
        "\\server\\x",
        "C:/x",
        "a:x",
        "",
    ] {
        assert!(safe_path(path).is_err(), "{path}");
    }
    assert_eq!(
        PathBuf::from(safe_path("resources/app.asar").unwrap()),
        PathBuf::from("resources/app.asar")
    );
}

#[test]
fn names_the_reason_a_path_is_refused() {
    assert_eq!(safe_path(""), Err(ArchivePathError::Invalid));
    assert_eq!(safe_path("a/..b/c"), Ok("a/..b/c".to_string()));
    assert_eq!(safe_path("a/b.."), Ok("a/b..".to_string()));
    assert_eq!(safe_path("./a"), Ok("./a".to_string()));
    assert_eq!(safe_path(".."), Err(ArchivePathError::Unsafe));
    assert_eq!(safe_path("a\0b"), Err(ArchivePathError::Unsafe));
    assert_eq!(
        ArchivePathError::Unsafe.message(),
        "Unsafe path in application archive"
    );
}

fn footer_for(start: u64, length: u64, digest: &[u8]) -> Vec<u8> {
    let mut footer = vec![0u8; 64];
    footer[..8].copy_from_slice(b"RTOWER01");
    footer[8..16].copy_from_slice(&start.to_le_bytes());
    footer[16..24].copy_from_slice(&length.to_le_bytes());
    footer[24..56].copy_from_slice(digest);
    footer
}

#[test]
fn reads_and_bounds_the_launcher_footer() {
    let digest = [7u8; 32];
    let footer = footer_for(4, 7, &digest);
    let read = payload_footer(75, &footer).unwrap();
    assert_eq!((read.start, read.length), (4, 7));
    assert_eq!(read.digest, digest.to_vec());
    assert_eq!(payload_footer(74, &footer), Err(FooterError::Incomplete));
    assert_eq!(payload_footer(63, &[]), Err(FooterError::Missing));
    assert_eq!(payload_footer(68, &footer_for(4, 0, &digest)), Err(FooterError::Incomplete));
    assert_eq!(payload_footer(u64::MAX, &footer_for(u64::MAX, 1, &digest)), Err(FooterError::Incomplete));
    let mut bad = footer.clone();
    bad[0] = b'X';
    assert_eq!(payload_footer(75, &bad), Err(FooterError::Invalid));
    assert_eq!(FooterError::Incomplete.message(), "Incomplete application download");
}

#[test]
fn checks_payload_digest_and_cache_checksum() {
    let sha_of_payload: [u8; 32] = [
        0x23, 0x9f, 0x59, 0xed, 0x55, 0xe7, 0x37, 0xc7, 0x71, 0x47, 0xcf, 0x55, 0xad, 0x0c, 0x1b,
        0x03, 0x0b, 0x6d, 0x7e, 0xe7, 0x48, 0xa7, 0x42, 0x69, 0x52, 0xf9, 0xb8, 0x52, 0xd5, 0xa9,
        0x35, 0xe5,
    ];
    assert!(payload_intact(b"payload", &sha_of_payload));
    assert!(!payload_intact(b"paylobd", &sha_of_payload));
    assert!(!payload_intact(b"payload", &sha_of_payload[..31]));
    assert_eq!(digest_key(&[0x00, 0xab, 0x3f]), "00ab3f");
    // CRC-32 of "123456789" is 0xCBF43926.
    assert!(cached_file_valid(b"123456789", 9, 0xCBF4_3926));
    assert!(!cached_file_valid(b"123456780", 9, 0xCBF4_3926));
    assert!(!cached_file_valid(b"123456789", 10, 0xCBF4_3926));
}

#[test]
fn bounds_seeks_reads_and_archive_entries() {
    assert_eq!(seek_position(7, 0, SeekFrom::Start(8)), None);
    assert_eq!(seek_position(7, 3, SeekFrom::Current(-3)), Some(0));
    assert_eq!(seek_position(7, 3, SeekFrom::End(-1)), Some(6));
    assert_eq!(seek_position(7, 3, SeekFrom::Current(-4)), None);
    assert_eq!(read_limit(65536, 7, 3), 4);
    assert_eq!(read_limit(2, 7, 3), 2);
    assert_eq!(archive_admitted(5000), Ok(()));
    assert_eq!(archive_admitted(5001), Err(ExtractError::TooManyEntries));
    assert_eq!(entry_admitted(10, 5, Some(0o100644)), Ok(15));
    assert_eq!(entry_admitted(0, 5, Some(0o120777)), Err(ExtractError::Link));
    assert_eq!(entry_admitted(u64::MAX, 1, None), Err(ExtractError::SizeOverflow));
    assert_eq!(entry_admitted(2147483648, 1, None), Err(ExtractError::TooLarge));
    assert_eq!(entry_admitted(2147483647, 1, None), Ok(2147483648));
}
