use sofidu::{file_size_to_str, str_to_file_size, SizeError};

#[test]
fn str_to_file_size_test() {
    assert_eq!(1, str_to_file_size("1").unwrap());
    assert_eq!(1, str_to_file_size("1.1").unwrap());
    assert_eq!(999, str_to_file_size("999B").unwrap());
    assert_eq!(1_000, str_to_file_size("1KB").unwrap());
    assert_eq!(1_000, str_to_file_size("1K").unwrap());
    assert_eq!(1_000, str_to_file_size("1.0KB").unwrap());
    assert_eq!(1_000, str_to_file_size("1.0K").unwrap());
    assert_eq!(4_200, str_to_file_size("4.2KB").unwrap());
    assert_eq!(1_000_000, str_to_file_size("1.0MB").unwrap());
    assert_eq!(1_000_000, str_to_file_size("1.0M").unwrap());
    assert_eq!(4_200_000, str_to_file_size("4.2MB").unwrap());
    assert_eq!(5_000_000_000, str_to_file_size("5.0GB").unwrap());
    assert_eq!(5_000_000_000, str_to_file_size("5.0G").unwrap());
    assert!(str_to_file_size("5..GB").is_err());
    assert!(str_to_file_size("5..TB").is_err());
    assert!(str_to_file_size("").is_err());
}

#[test]
fn size_errors_name_what_is_wrong() {
    assert_eq!(
        Err(SizeError::InvalidUnit("TB".to_string())),
        str_to_file_size("5tb")
    );
    assert_eq!(
        Err(SizeError::InvalidUnit("TB".to_string())),
        str_to_file_size("5..TB")
    );
    assert_eq!(
        Err(SizeError::ParseError("5..5".to_string())),
        str_to_file_size("5..5GB")
    );
    assert_eq!(
        Err(SizeError::ParseError("".to_string())),
        str_to_file_size("")
    );
    assert_eq!(
        "Invalid file size unit: TB.\n Supported file size units: B, MB, KB, GB.",
        SizeError::InvalidUnit("TB".to_string()).message()
    );
    assert_eq!(
        "Failed to parse value: 5..5",
        SizeError::ParseError("5..5".to_string()).message()
    );
}

#[test]
fn sizes_are_rounded_down_and_kept_in_range() {
    assert_eq!(Ok(0), str_to_file_size("0.9"));
    assert_eq!(Ok(1_999), str_to_file_size("1.9999k"));
    assert_eq!(Ok(500), str_to_file_size(".5K"));
    assert_eq!(Ok(5_000_000), str_to_file_size("5.m"));
    assert_eq!(Ok(7), str_to_file_size("+7b"));
    assert_eq!(Ok(0), str_to_file_size("-7G"));
    assert_eq!(Ok(123_456_789), str_to_file_size("0.1234567891G"));
    assert_eq!(Ok(u64::MAX), str_to_file_size("18446744073709551615"));
    assert_eq!(Ok(u64::MAX), str_to_file_size("18446744073709551616"));
    assert_eq!(Ok(u64::MAX), str_to_file_size("99999999999GB"));
    assert!(str_to_file_size(".").is_err());
    assert!(str_to_file_size("1 KB").is_err());
    assert!(str_to_file_size("1e3").is_err());
    assert!(str_to_file_size("KB").is_err());
}

#[test]
fn a_size_written_for_people_reads_back_as_it_was_shown() {
    let cases: [(u64, u64); 12] = [
        (0, 0),
        (999, 999),
        (1_000, 1_000),
        (1_049, 1_000),
        (1_050, 1_100),
        (999_949, 999_900),
        (999_950, 1_000_000),
        (4_233_333, 4_200_000),
        (999_999_999, 1_000_000_000),
        (3_666_233_333, 3_700_000_000),
        (5_000_000_000, 5_000_000_000),
        (u64::MAX, 18_446_744_073_700_000_000),
    ];
    for (size, shown) in cases {
        assert_eq!(Ok(shown), str_to_file_size(&file_size_to_str(size)));
    }
}
