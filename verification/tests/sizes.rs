use file_database::{FileInformation, FileSize, FileSizeUnit};

#[test]
fn from_bytes_picks_units() {
    let b = FileSize::from(999);
    assert_eq!(b.get_unit(), FileSizeUnit::Byte);
    assert_eq!(b.get_size(), 999);

    let kb = FileSize::from(1_000);
    assert_eq!(kb.get_unit(), FileSizeUnit::Kilobyte);
    assert_eq!(kb.get_size(), 1);

    let kb2 = FileSize::from(999_999);
    assert_eq!(kb2.get_unit(), FileSizeUnit::Kilobyte);
    assert_eq!(kb2.get_size(), 999);

    let mb = FileSize::from(2_500_000);
    assert_eq!(mb.get_unit(), FileSizeUnit::Megabyte);
    assert_eq!(mb.get_size(), 2);

    let gb = FileSize::from(1_000_000_000);
    assert_eq!(gb.get_unit(), FileSizeUnit::Gigabyte);
    assert_eq!(gb.get_size(), 1);

    let tb = FileSize::from(7_000_000_000_000);
    assert_eq!(tb.get_unit(), FileSizeUnit::Terabyte);
    assert_eq!(tb.get_size(), 7);

    let pb = FileSize::from(3_000_000_000_000_000);
    assert_eq!(pb.get_unit(), FileSizeUnit::Petabyte);
    assert_eq!(pb.get_size(), 3);

    let zero = FileSize::from(0);
    assert_eq!(zero.get_unit(), FileSizeUnit::Byte);
    assert_eq!(zero.get_size(), 0);
}

#[test]
fn unit_names_pluralize() {
    assert_eq!(FileSize::default().unit_as_string(), "Bytes");
    assert_eq!(FileSize::from(1).unit_as_string(), "Byte");
    assert_eq!(FileSize::from(2).unit_as_string(), "Bytes");
    assert_eq!(FileSize::from(1_000).unit_as_string(), "Kilobyte");
    assert_eq!(FileSize::from(5_000_000).unit_as_string(), "Megabytes");
    assert_eq!(FileSize::from_parts(1, FileSizeUnit::Petabyte).unit_as_string(), "Petabyte");
}

#[test]
fn as_unit_converts_and_saturates() {
    let two_kb = FileSize::from_parts(2, FileSizeUnit::Kilobyte);
    let in_bytes = two_kb.as_unit(FileSizeUnit::Byte);
    assert_eq!(in_bytes.get_unit(), FileSizeUnit::Byte);
    assert_eq!(in_bytes.get_size(), 2_000);

    let back = in_bytes.as_unit(FileSizeUnit::Kilobyte);
    assert_eq!(back.get_unit(), FileSizeUnit::Kilobyte);
    assert_eq!(back.get_size(), 2);

    let truncated = FileSize::from_parts(1_500, FileSizeUnit::Byte).as_unit(FileSizeUnit::Kilobyte);
    assert_eq!(truncated.get_size(), 1);

    let same = two_kb.as_unit(FileSizeUnit::Kilobyte);
    assert_eq!(same.get_size(), 2);
    assert_eq!(same.get_unit(), FileSizeUnit::Kilobyte);

    let huge = FileSize::from_parts(u64::MAX, FileSizeUnit::Petabyte).as_unit(FileSizeUnit::Byte);
    assert_eq!(huge.get_size(), u64::MAX);

    let exact = FileSize::from_parts(3, FileSizeUnit::Petabyte).as_unit(FileSizeUnit::Gigabyte);
    assert_eq!(exact.get_size(), 3_000_000);
}

#[test]
fn file_information_round_trip() {
    let info = FileInformation::new(
        Some("note".to_string()),
        Some("txt".to_string()),
        FileSize::from(1_234),
        Some(1_700_000_000),
        Some(120),
        Some(1_700_000_050),
        Some(70),
        Some(1_700_000_100),
        Some(20),
    );
    assert_eq!(info.get_name(), Some("note"));
    assert_eq!(info.get_extension(), Some("txt"));
    assert_eq!(info.get_size().get_unit(), FileSizeUnit::Kilobyte);
    assert_eq!(info.get_size().get_size(), 1);
    assert_eq!(info.get_unix_created(), Some(&1_700_000_000));
    assert_eq!(info.get_time_since_created(), Some(&120));
    assert_eq!(info.get_unix_last_opened(), Some(&1_700_000_050));
    assert_eq!(info.get_time_since_last_opened(), Some(&70));
    assert_eq!(info.get_unix_last_modified(), Some(&1_700_000_100));
    assert_eq!(info.get_time_since_last_modified(), Some(&20));

    let bare = FileInformation::new(
        Some("folder".to_string()),
        None,
        FileSize::from(0),
        None,
        None,
        None,
        None,
        None,
        None,
    );
    assert_eq!(bare.get_extension(), None);
    assert_eq!(bare.get_unix_created(), None);
    assert_eq!(bare.get_time_since_last_modified(), None);
}
