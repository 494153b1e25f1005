use rust_rim::mod_entry::{
    active_package_ids, count_active, display_version, dlc_source, entry_from_about,
    find_preview_image, has_incompatibility, has_missing_deps, is_preview_file_name, local_source,
    lower_ids, mods_config_target, order_dlc_folders, paths_ready, source_glyph, AboutData, DirEntryInfo, ModEntry, ModList, ModSource,
    context_menu, double_click_request, drop_request, local_mod_folders, row_status, warning_mark, MoveRequest, RowStatus,
};

fn about(name: &str, id: &str) -> AboutData {
    AboutData {
        name: name.to_string(),
        package_id: id.to_string(),
        version: "1.0".to_string(),
        author: "Someone".to_string(),
        supported_versions: vec!["1.4".to_string(), "1.5".to_string()],
        dependencies: vec!["brrainz.Harmony".to_string()],
        load_after: vec!["Ludeon.RimWorld".to_string()],
        load_before: vec![],
        incompatible_with: vec!["Other.Mod".to_string()],
        description: "desc".to_string(),
    }
}

fn entry(id: &str, active: bool, deps: &[&str], incompat: &[&str]) -> ModEntry {
    ModEntry {
        name: id.to_string(),
        package_id: id.to_string(),
        version: String::new(),
        author: String::new(),
        supported_versions: vec![],
        path: format!("/mods/{id}"),
        source: ModSource::Local,
        dependencies: deps.iter().map(|s| s.to_string()).collect(),
        load_after: vec![],
        load_before: vec![],
        incompatible_with: incompat.iter().map(|s| s.to_string()).collect(),
        is_active: active,
        description: String::new(),
        preview_path: None,
    }
}

fn dir(name: &str, is_dir: bool) -> DirEntryInfo {
    DirEntryInfo {
        path: format!("/game/Data/{name}"),
        name: Some(name.to_string()),
        name_bytes: name.as_bytes().to_vec(),
        is_file: !is_dir,
        is_dir,
    }
}

#[test]
fn ids_are_lowered() {
    assert_eq!(
        lower_ids(vec!["Brrainz.Harmony".to_string(), "ABC".to_string()]),
        vec!["brrainz.harmony".to_string(), "abc".to_string()]
    );
    assert!(lower_ids(vec![]).is_empty());
}

#[test]
fn entry_from_about_data() {
    let e = entry_from_about(
        about("", "Author.MyMod"),
        "MyModFolder".to_string(),
        "/mods/MyModFolder".to_string(),
        ModSource::Local,
        Some("/mods/MyModFolder/About/Preview.png".to_string()),
    );
    assert_eq!(e.name, "MyModFolder");
    assert_eq!(e.package_id, "author.mymod");
    assert_eq!(e.dependencies, vec!["brrainz.harmony".to_string()]);
    assert_eq!(e.load_after, vec!["ludeon.rimworld".to_string()]);
    assert_eq!(e.incompatible_with, vec!["other.mod".to_string()]);
    assert!(!e.is_active);
    assert_eq!(e.version, "1.0");
    assert_eq!(e.path, "/mods/MyModFolder");
    assert_eq!(e.preview_path.as_deref(), Some("/mods/MyModFolder/About/Preview.png"));
    let named = entry_from_about(
        about("Nice Name", "x"),
        "f".to_string(),
        "/p".to_string(),
        ModSource::Core,
        None,
    );
    assert_eq!(named.name, "Nice Name");
    assert_eq!(named.source, ModSource::Core);
}

#[test]
fn local_folder_sources() {
    assert_eq!(local_source("2009463077"), ModSource::Workshop(2009463077));
    assert_eq!(local_source("MyMod"), ModSource::Local);
    assert_eq!(local_source(""), ModSource::Local);
    assert_eq!(local_source("99999999999999999999"), ModSource::Local);
    assert_eq!(local_source("+12"), ModSource::Local);
    assert_eq!(local_source("12a"), ModSource::Local);
}

#[test]
fn workshop_folder_named_by_id() {
    for id in [1u64, 294100, u64::MAX] {
        assert_eq!(local_source(&id.to_string()), ModSource::Workshop(id));
    }
}

#[test]
fn data_folder_sources() {
    assert_eq!(dlc_source("Core"), ModSource::Core);
    assert_eq!(dlc_source("Royalty"), ModSource::DLC("Royalty".to_string()));
    assert_eq!(dlc_source("core"), ModSource::DLC("core".to_string()));
}

#[test]
fn preview_names() {
    assert!(is_preview_file_name("Preview.PNG"));
    assert!(is_preview_file_name("preview.jpeg"));
    assert!(is_preview_file_name("PREVIEW.webp"));
    assert!(is_preview_file_name("preview.gif"));
    assert!(!is_preview_file_name("preview.bmp"));
    assert!(!is_preview_file_name("About.xml"));
}

#[test]
fn first_preview_file_wins() {
    let entries = vec![
        DirEntryInfo { path: "/m/About/preview.png".into(), name: Some("preview.png".into()), name_bytes: "preview.png".as_bytes().to_vec(), is_file: false, is_dir: true },
        DirEntryInfo { path: "/m/About/About.xml".into(), name: Some("About.xml".into()), name_bytes: "About.xml".as_bytes().to_vec(), is_file: true, is_dir: false },
        DirEntryInfo { path: "/m/About/Preview.JPG".into(), name: Some("Preview.JPG".into()), name_bytes: "Preview.JPG".as_bytes().to_vec(), is_file: true, is_dir: false },
        DirEntryInfo { path: "/m/About/preview.png".into(), name: Some("preview.png".into()), name_bytes: "preview.png".as_bytes().to_vec(), is_file: true, is_dir: false },
    ];
    assert_eq!(find_preview_image(&entries), Some("/m/About/Preview.JPG".to_string()));
    assert_eq!(find_preview_image(&entries[..2].to_vec()), None);
    assert_eq!(find_preview_image(&vec![]), None);
}

#[test]
fn core_comes_first_then_by_name() {
    let entries = vec![
        dir("Royalty", true),
        dir("notes.txt", false),
        dir("Anomaly", true),
        dir("Core", true),
        dir("Biotech", true),
        dir("Ideology", true),
    ];
    let names: Vec<String> = order_dlc_folders(entries)
        .into_iter()
        .map(|e| e.name.unwrap())
        .collect();
    assert_eq!(names, vec!["Core", "Anomaly", "Biotech", "Ideology", "Royalty"]);
}

#[test]
fn folder_order_is_bytewise() {
    let entries = vec![dir("b", true), dir("B", true), dir("Ärger", true), dir("a", true)];
    let names: Vec<String> = order_dlc_folders(entries)
        .into_iter()
        .map(|e| e.name.unwrap())
        .collect();
    let mut expected = vec!["b", "B", "Ärger", "a"];
    expected.sort();
    assert_eq!(names, expected);
    assert!(order_dlc_folders(vec![]).is_empty());
}

#[test]
fn folder_order_uses_raw_name_bytes() {
    let odd = DirEntryInfo {
        path: "/game/Data/odd".into(),
        name: None,
        name_bytes: vec![0xff, 0x41],
        is_file: false,
        is_dir: true,
    };
    let entries = vec![odd, dir("Zeta", true), dir("Core", true), dir("Zet", true)];
    let bytes: Vec<Vec<u8>> = order_dlc_folders(entries).into_iter().map(|e| e.name_bytes).collect();
    assert_eq!(
        bytes,
        vec![b"Core".to_vec(), b"Zet".to_vec(), b"Zeta".to_vec(), vec![0xff, 0x41]]
    );
}

#[test]
fn status_checks() {
    let mods = vec![
        entry("a", true, &["b"], &[]),
        entry("b", false, &[], &[]),
        entry("c", true, &[], &["a"]),
        entry("d", false, &[], &["a"]),
    ];
    let active = active_package_ids(&mods);
    assert_eq!(active, vec!["a".to_string(), "c".to_string()]);
    assert_eq!(count_active(&mods), 2);
    assert!(has_missing_deps(&mods[0], &active));
    assert!(!has_missing_deps(&mods[1], &active));
    assert!(has_incompatibility(&mods[2], &active));
    assert!(!has_incompatibility(&mods[3], &active));
    assert!(!has_incompatibility(&mods[0], &active));
}

#[test]
fn shown_versions() {
    let mut m = entry("x", false, &[], &[]);
    assert_eq!(display_version(&m), "");
    m.supported_versions = vec!["1.4".to_string(), "1.5".to_string()];
    assert_eq!(display_version(&m), "1.5");
    m.version = "2.0.1".to_string();
    assert_eq!(display_version(&m), "2.0.1");
}

#[test]
fn mod_list_pane() {
    let mut mods = vec![entry("a", true, &[], &[])];
    let indices = [0usize];
    let mut selected = Some(0usize);
    let list = ModList::new(&mut mods, &indices, &mut selected, true);
    assert!(list.is_active);
    assert_eq!(list.indices, &[0]);
    assert_eq!(list.mods.len(), 1);
    assert_eq!(*list.selected, Some(0));
}

#[test]
fn lowercase_handles_unicode() {
    assert_eq!(lower_ids(vec!["ÄÖ.Mod".to_string()]), vec!["äö.mod".to_string()]);
}

#[test]
fn source_glyphs() {
    assert_eq!(source_glyph(&ModSource::Core), "◆");
    assert_eq!(source_glyph(&ModSource::DLC("Royalty".into())), "★");
    assert_eq!(source_glyph(&ModSource::Workshop(1)), "◇");
    assert_eq!(source_glyph(&ModSource::Local), "◉");
}

#[test]
fn path_settings() {
    assert!(paths_ready("/game", "/game/Mods"));
    assert!(!paths_ready("", "/game/Mods"));
    assert!(!paths_ready("/game", ""));
    assert_eq!(mods_config_target(""), None);
    assert_eq!(mods_config_target("/cfg"), Some("/cfg/ModsConfig.xml".to_string()));
}

#[test]
fn row_warnings() {
    let mods = vec![
        entry("a", true, &["b"], &[]),
        entry("b", false, &["zz"], &["a"]),
        entry("c", true, &["a"], &["a"]),
        entry("d", true, &["a", "c"], &[]),
    ];
    let active = active_package_ids(&mods);
    assert_eq!(row_status(&mods[0], &active, true), RowStatus::MissingDeps);
    assert_eq!(row_status(&mods[0], &active, false), RowStatus::Fine);
    assert_eq!(row_status(&mods[1], &active, false), RowStatus::Fine);
    assert_eq!(row_status(&mods[1], &active, true), RowStatus::MissingDeps);
    assert_eq!(row_status(&mods[2], &active, true), RowStatus::Conflict);
    assert_eq!(row_status(&mods[3], &active, true), RowStatus::Fine);
    assert_eq!(warning_mark(RowStatus::Fine), None);
    assert_eq!(warning_mark(RowStatus::Conflict), Some(("✕", "Конфликт с активным модом")));
    assert_eq!(warning_mark(RowStatus::MissingDeps), Some(("⚠", "Отсутствуют зависимости")));
}

#[test]
fn pane_requests() {
    assert_eq!(double_click_request(true, 3), MoveRequest::Deactivate(3));
    assert_eq!(double_click_request(false, 4), MoveRequest::Activate(4));
    assert_eq!(
        context_menu(true, 1),
        vec![
            MoveRequest::Deactivate(1),
            MoveRequest::MoveUp(1),
            MoveRequest::MoveDown(1),
            MoveRequest::OpenFolder(1)
        ]
    );
    assert_eq!(context_menu(false, 2), vec![MoveRequest::Activate(2), MoveRequest::OpenFolder(2)]);
}

#[test]
fn drag_and_drop_requests() {
    assert_eq!(
        drop_request(true, Some(4), Some(2), Some(7), true),
        Some(MoveRequest::DragDrop { orig_idx: 4, to_active: true, to_pos: 2 })
    );
    assert_eq!(
        drop_request(true, Some(4), None, Some(7), false),
        Some(MoveRequest::DragDrop { orig_idx: 4, to_active: false, to_pos: 7 })
    );
    assert_eq!(drop_request(false, Some(4), Some(2), None, true), None);
    assert_eq!(drop_request(true, None, Some(2), None, true), None);
    assert_eq!(drop_request(true, Some(4), None, None, true), None);
}

#[test]
fn local_folders_in_listing_order() {
    let entries = vec![dir("b", true), dir("readme.txt", false), dir("12345", true), dir("a", true)];
    let names: Vec<String> = local_mod_folders(entries).into_iter().map(|e| e.name.unwrap()).collect();
    assert_eq!(names, vec!["b", "12345", "a"]);
    assert!(local_mod_folders(vec![]).is_empty());
}
