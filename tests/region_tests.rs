use chunk_duplicate::region::{
    check_directory, check_source, region_file_name, SetupError, DECLINED_EXIT_CODE,
    SETUP_EXIT_CODE,
};

#[test]
fn region_names() {
    assert_eq!(region_file_name(0, 0), "r.0.0.mca");
    assert_eq!(region_file_name(1, 0), "r.1.0.mca");
    assert_eq!(region_file_name(-1, 0), "r.-1.0.mca");
    assert_eq!(region_file_name(-12, 345), "r.-12.345.mca");
    assert_eq!(region_file_name(i32::MIN, i32::MAX), "r.-2147483648.2147483647.mca");
}

#[test]
fn directory_checks() {
    assert_eq!(check_directory(false, Some("region")), Err(SetupError::NotADirectory));
    assert_eq!(check_directory(false, None), Err(SetupError::NotADirectory));
    assert_eq!(check_directory(true, None), Err(SetupError::RootDirectory));
    assert_eq!(check_directory(true, Some("region")), Ok(()));
    for name in ["Region", "regions", "world", "", "regio"] {
        assert_eq!(check_directory(true, Some(name)), Err(SetupError::WrongName));
    }
}

#[test]
fn wrong_directory_name_exits_with_two() {
    let e = check_directory(true, Some("DIM-1")).unwrap_err();
    assert_eq!(e.exit_code(), 2);
}

#[test]
fn source_checks() {
    assert_eq!(check_source(true), Ok(()));
    assert_eq!(check_source(false), Err(SetupError::MissingRegion));
}

#[test]
fn exit_codes() {
    for e in [
        SetupError::NotADirectory,
        SetupError::RootDirectory,
        SetupError::WrongName,
        SetupError::MissingRegion,
    ] {
        assert_eq!(e.exit_code(), 2);
    }
    assert_eq!(SETUP_EXIT_CODE, 2);
    assert_eq!(DECLINED_EXIT_CODE, 1);
}
