use vapour::library::parse_libraries;
use vapour::resolve::{derive_compat_path, filter_by_pattern, resolve_app, sort_by_name, SteamApp};

fn app(id: u32, name: &str, path: &str) -> SteamApp {
    SteamApp::new(id, name.to_string(), path.as_bytes().to_vec())
}

fn names(apps: &[SteamApp]) -> Vec<String> {
    apps.iter()
        .map(|a| a.app_name().unwrap().to_string())
        .collect()
}

fn temp_catalog() -> sled::Tree {
    let db = sled::Config::new().temporary(true).open().unwrap();
    db.open_tree("appids").unwrap()
}

#[test]
fn catalog_join_resolves_installed_applications() {
    let text = r#"
"libraryfolders"
{
  "0"
  {
    "path"   "/home/user/games"
    "apps"
    {
      "10"  "1048576"
      "20"  "2048"
    }
  }
}"#;
    let libs = parse_libraries(text).unwrap();
    let catalog = temp_catalog();
    catalog.insert(10u32.to_le_bytes(), "Half-Life").unwrap();
    catalog.insert(20u32.to_le_bytes(), "Portal").unwrap();

    let apps = libs.apps(&catalog);
    assert_eq!(apps.len(), 2);
    let mut got: Vec<(u32, String, Vec<u8>)> = apps
        .iter()
        .map(|a| {
            (
                a.app_id,
                a.app_name().unwrap().to_string(),
                a.path.clone(),
            )
        })
        .collect();
    got.sort();
    assert_eq!(
        got,
        vec![
            (10, "Half-Life".to_string(), b"/home/user/games".to_vec()),
            (20, "Portal".to_string(), b"/home/user/games".to_vec()),
        ]
    );

    let half_life = apps.iter().find(|a| a.app_id == 10).unwrap();
    assert_eq!(
        derive_compat_path(half_life, false),
        b"/home/user/games/steamapps/compatdata/10".to_vec()
    );
}

#[test]
fn unknown_and_non_text_ids_are_silently_excluded() {
    let text = r#"
"libraryfolders"
{
  "0" { "path" "/g" "apps" { "10" "x" "20" "x" "30" "x" } }
}"#;
    let libs = parse_libraries(text).unwrap();
    let catalog = temp_catalog();
    catalog.insert(10u32.to_le_bytes(), "Known").unwrap();
    // id 20 carries bytes that are not valid text; id 30 is absent.
    catalog
        .insert(20u32.to_le_bytes(), &[0xff, 0xfe, 0x80][..])
        .unwrap();

    let apps = libs.apps(&catalog);
    assert_eq!(apps.len(), 1);
    assert_eq!(apps[0].app_id, 10);
    assert_eq!(apps[0].app_name(), Some("Known"));
}

#[test]
fn resolve_app_emits_only_resolved_names() {
    let path = b"/g".to_vec();
    let got = resolve_app(&path, 7, Some("Name".to_string())).unwrap();
    assert_eq!(got.app_id, 7);
    assert_eq!(got.app_name(), Some("Name"));
    assert_eq!(got.path, b"/g".to_vec());
    assert!(resolve_app(&path, 7, None).is_none());
}

#[test]
fn sort_by_name_orders_distinct_names() {
    let apps = vec![
        app(3, "portal", "/g"),
        app(1, "Half-Life", "/g"),
        app(2, "Dota", "/g"),
        app(4, "Alyx", "/g"),
    ];
    let sorted = sort_by_name(apps);
    // Byte order is case-sensitive: capitals order before lower case.
    assert_eq!(names(&sorted), vec!["Alyx", "Dota", "Half-Life", "portal"]);
}

#[test]
fn sort_keeps_all_records_on_equal_names() {
    let apps = vec![app(2, "Same", "/g"), app(1, "Same", "/g")];
    let sorted = sort_by_name(apps);
    assert_eq!(sorted.len(), 2);
    let mut ids: Vec<u32> = sorted.iter().map(|a| a.app_id).collect();
    ids.sort();
    assert_eq!(ids, vec![1, 2]);
    assert_eq!(names(&sorted), vec!["Same", "Same"]);
}

#[test]
fn filter_matches_name_case_insensitively_by_default() {
    let apps = vec![
        app(1, "Half-Life", "/g"),
        app(2, "Portal", "/g"),
        app(3, "Half-Life 2", "/g"),
    ];
    let hits = filter_by_pattern(&apps, "half", false).unwrap();
    assert_eq!(names(&hits), vec!["Half-Life", "Half-Life 2"]);

    let hits = filter_by_pattern(&apps, "half", true).unwrap();
    assert_eq!(hits.len(), 0);

    let hits = filter_by_pattern(&apps, "^Portal$", true).unwrap();
    assert_eq!(names(&hits), vec!["Portal"]);
}

#[test]
fn invalid_pattern_yields_nothing() {
    let apps = vec![app(1, "Half-Life", "/g")];
    assert!(filter_by_pattern(&apps, "(unclosed", false).is_none());
}

#[test]
fn compat_path_is_derived_from_root_and_id() {
    let a = app(10, "Half-Life", "/home/user/games");
    assert_eq!(
        derive_compat_path(&a, false),
        b"/home/user/games/steamapps/compatdata/10".to_vec()
    );
    assert_eq!(
        derive_compat_path(&a, true),
        b"/home/user/games/steamapps/compatdata/10/pfx/drive_c".to_vec()
    );
    let b = app(4294967295, "X", "/r");
    assert_eq!(
        derive_compat_path(&b, false),
        b"/r/steamapps/compatdata/4294967295".to_vec()
    );
}
