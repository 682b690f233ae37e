use file_manager::{format_bytes, name_or_unknown, FileInfo, FsError, Metadata};

fn file(size: u64) -> FileInfo {
    FileInfo {
        path: "/test".to_string(),
        name: "test.txt".to_string(),
        size,
        is_directory: false,
    }
}

#[test]
fn test_format_size() {
    let file = FileInfo {
        path: "/test".to_string(),
        name: "test.txt".to_string(),
        size: 1024,
        is_directory: false,
    };

    assert_eq!(file.format_size(), "1.00 KB");
}

#[test]
fn test_file_info_creation() {
    let result = FileInfo::new(
        ".".to_string(),
        Some(Metadata { size: 4096, is_directory: true }),
    );
    assert!(result.is_ok());
}

#[test]
fn format_size_of_zero_bytes() {
    assert_eq!(file(0).format_size(), "0.00 B");
}

#[test]
fn format_size_stays_in_bytes_below_one_kilobyte() {
    assert_eq!(file(1).format_size(), "1.00 B");
    assert_eq!(file(1023).format_size(), "1023.00 B");
}

#[test]
fn format_size_fractional_kilobytes() {
    assert_eq!(file(1536).format_size(), "1.50 KB");
    assert_eq!(file(1100).format_size(), "1.07 KB");
}

#[test]
fn format_size_megabytes_and_gigabytes() {
    assert_eq!(file(1048576).format_size(), "1.00 MB");
    assert_eq!(file(1073741824).format_size(), "1.00 GB");
    assert_eq!(file(5 * 1073741824 / 2).format_size(), "2.50 GB");
}

#[test]
fn format_size_terabytes_do_not_overflow_the_unit() {
    assert_eq!(file(1099511627776).format_size(), "1.00 TB");
    assert_eq!(file(1024 * 1099511627776).format_size(), "1024.00 TB");
    assert_eq!(format_bytes(u64::MAX), "16777216.00 TB");
}

#[test]
fn format_size_rounds_to_two_decimals() {
    // 1535 bytes is 1.499... KB and 2047 bytes 1.999... KB.
    assert_eq!(format_bytes(1535), "1.50 KB");
    assert_eq!(format_bytes(2047), "2.00 KB");
    // 1152 bytes is exactly 1.125 KB and 1408 bytes 1.375 KB: ties go to
    // the even hundredth.
    assert_eq!(format_bytes(1152), "1.12 KB");
    assert_eq!(format_bytes(1408), "1.38 KB");
    // 1160 bytes is 1.1328125 KB.
    assert_eq!(format_bytes(1160), "1.13 KB");
}

#[test]
fn format_size_moves_up_a_unit_instead_of_showing_1024() {
    // 1048575 bytes is 1023.999... KB, which would round to 1024.00 KB.
    assert_eq!(format_bytes(1048575), "1.00 MB");
    assert_eq!(format_bytes(1073741823), "1.00 GB");
    assert_eq!(format_bytes(1099511627775), "1.00 TB");
    assert_eq!(format_bytes(1048064), "1023.50 KB");
}

#[test]
fn entry_name_is_final_path_component() {
    let info = FileInfo::new(
        "/home/user/notes.txt".to_string(),
        Some(Metadata { size: 12, is_directory: false }),
    )
    .unwrap();
    assert_eq!(info.name, "notes.txt");
    assert_eq!(info.path, "/home/user/notes.txt");
    assert_eq!(info.size, 12);
    assert!(!info.is_directory);
}

#[test]
fn entry_name_falls_back_to_unknown() {
    let info = FileInfo::new(
        "/home/..".to_string(),
        Some(Metadata { size: 0, is_directory: true }),
    )
    .unwrap();
    assert_eq!(info.name, "Unknown");
    let dot = FileInfo::new(".".to_string(), Some(Metadata { size: 1, is_directory: true })).unwrap();
    assert_eq!(dot.name, "Unknown");
}

#[test]
fn entry_without_metadata_is_an_error() {
    let result = FileInfo::new("/gone".to_string(), None);
    assert_eq!(result.err(), Some(FsError::MetadataUnavailable));
}

#[test]
fn missing_component_becomes_unknown() {
    assert_eq!(name_or_unknown(None), "Unknown");
    assert_eq!(name_or_unknown(Some("main.rs".to_string())), "main.rs");
}
