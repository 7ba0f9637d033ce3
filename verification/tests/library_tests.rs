use vapour::library::{parse_libraries, parse_u32, LibraryError};

fn lib_text() -> &'static str {
    r#"
"libraryfolders"
{
  "0"
  {
    "path"   "/home/user/games"
    "apps"
    {
      "10"  "1048576"
      "20"  "2048"
    }
  }
}"#
}

#[test]
fn extracts_paths_and_app_ids() {
    let libs = parse_libraries(lib_text()).unwrap();
    assert_eq!(libs.libs.len(), 1);
    assert_eq!(libs.libs[0].path, b"/home/user/games".to_vec());
    assert_eq!(libs.libs[0].games, vec![10, 20]);
}

#[test]
fn one_malformed_library_is_skipped_not_fatal() {
    // Three entries; the middle one has no "apps" key, so only it is
    // dropped and the other two still come through.
    let text = r#"
"libraryfolders"
{
  "0" { "path" "/a" "apps" { "1" "0" } }
  "1" { "path" "/broken" }
  "2" { "path" "/c" "apps" { "3" "0" } }
}"#;
    let libs = parse_libraries(text).unwrap();
    assert_eq!(libs.libs.len(), 2);
    assert_eq!(libs.libs[0].path, b"/a".to_vec());
    assert_eq!(libs.libs[1].path, b"/c".to_vec());
}

#[test]
fn library_missing_path_is_skipped() {
    let text = r#"
"libraryfolders"
{
  "0" { "apps" { "1" "0" } }
  "1" { "path" "/kept" "apps" { "2" "0" } }
}"#;
    let libs = parse_libraries(text).unwrap();
    assert_eq!(libs.libs.len(), 1);
    assert_eq!(libs.libs[0].path, b"/kept".to_vec());
}

#[test]
fn non_numeric_app_key_is_skipped_without_harming_siblings() {
    let text = r#"
"libraryfolders"
{
  "0"
  {
    "path" "/a"
    "apps" { "10" "x" "not_a_number" "y" "20" "z" }
  }
}"#;
    let libs = parse_libraries(text).unwrap();
    assert_eq!(libs.libs.len(), 1);
    assert_eq!(libs.libs[0].games, vec![10, 20]);
}

#[test]
fn duplicate_ids_are_not_repeated() {
    let text = r#"
"libraryfolders"
{
  "0" { "path" "/a" "apps" { "10" "x" "010" "y" } }
}"#;
    let libs = parse_libraries(text).unwrap();
    assert_eq!(libs.libs[0].games, vec![10]);
}

#[test]
fn missing_libraryfolders_is_a_hard_error() {
    let r = parse_libraries(r#""something" "else""#);
    assert_eq!(r.unwrap_err(), LibraryError::MissingLibraryFolders);
}

#[test]
fn leaf_libraryfolders_is_a_hard_error() {
    let r = parse_libraries(r#""libraryfolders" "oops""#);
    assert_eq!(r.unwrap_err(), LibraryError::LibraryFoldersNotAMap);
}

#[test]
fn unparsable_text_is_a_parse_failure() {
    let r = parse_libraries(r#""libraryfolders" { "0""#);
    let err = r.unwrap_err();
    assert_eq!(err, LibraryError::ParseFailure);
    assert_eq!(err.message(), "Steam libraryfolders.vdf is invalid");
}

#[test]
fn trailing_unmatched_brace_is_a_parse_failure() {
    let r = parse_libraries(r#""libraryfolders" { } }"#);
    assert_eq!(r.unwrap_err(), LibraryError::ParseFailure);
}

#[test]
fn parse_u32_reads_keys_as_the_standard_parse_does() {
    assert_eq!(parse_u32(b"10"), Some(10));
    assert_eq!(parse_u32(b"0"), Some(0));
    assert_eq!(parse_u32(b"0010"), Some(10));
    assert_eq!(parse_u32(b"+7"), Some(7));
    assert_eq!(parse_u32(b"4294967295"), Some(u32::MAX));
    assert_eq!(parse_u32(b"4294967296"), None);
    assert_eq!(parse_u32(b"99999999999999999999"), None);
    assert_eq!(parse_u32(b""), None);
    assert_eq!(parse_u32(b"+"), None);
    assert_eq!(parse_u32(b"not_a_number"), None);
    assert_eq!(parse_u32(b"12x"), None);
    assert_eq!(parse_u32(b"-1"), None);
}
