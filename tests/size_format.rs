use dirsweep::size_format::format_file_size;

#[test]
fn formats_zero_bytes() {
    assert_eq!(format_file_size(0), "0.0 Bytes");
}

#[test]
fn formats_one_kilobyte() {
    assert_eq!(format_file_size(1024), "1.0 KB");
}

#[test]
fn formats_one_and_a_half_kilobytes() {
    assert_eq!(format_file_size(1536), "1.5 KB");
}

#[test]
fn formats_one_gigabyte() {
    assert_eq!(format_file_size(1073741824), "1.0 GB");
}

#[test]
fn formats_just_below_one_kilobyte_in_bytes() {
    assert_eq!(format_file_size(1023), "1023.0 Bytes");
}

#[test]
fn formats_megabytes() {
    assert_eq!(format_file_size(5 * 1024 * 1024 + 512 * 1024), "5.5 MB");
}

#[test]
fn caps_at_gigabytes() {
    assert_eq!(format_file_size(2048 * 1024 * 1024 * 1024), "2048.0 GB");
}

#[test]
fn rounds_ties_to_even_tenth() {
    // 1280 bytes is exactly 1.25 KB; 1331.2 bytes would be 1.3 KB.
    assert_eq!(format_file_size(1280), "1.2 KB");
    assert_eq!(format_file_size(1126), "1.1 KB");
    assert_eq!(format_file_size(1127), "1.1 KB");
    assert_eq!(format_file_size(1178), "1.2 KB");
}

#[test]
fn formats_largest_count() {
    assert_eq!(format_file_size(u64::MAX), "17179869184.0 GB");
}
