use minecraft_mod_organizer::domain::{AppError, ModArtifact, ModDescriptor, ModEntryDto, ModLoader};
use minecraft_mod_organizer::layout::{
    build_snapshot, mod_layout_updates, mod_toggle_paths, record_toggle, toggled_path,
};

fn artifact(id: &str, name: &str, key: &str) -> ModArtifact {
    let d = ModDescriptor {
        mod_id: key.to_string(),
        name: name.to_string(),
        version: "1".to_string(),
        loader: ModLoader::Fabric,
        icon_path_in_jar: None,
    };
    ModArtifact {
        id: id.to_string(),
        layout_key: key.to_string(),
        descriptor: d.clone(),
        packaged_mods: vec![d],
        enabled: true,
        file_name: format!("{id}.jar"),
        path: format!("mods/{id}.jar"),
        icon_data_url: None,
    }
}

fn row(key: &str, cat: Option<&str>, index: i64) -> (String, Option<String>, i64) {
    (key.to_string(), cat.map(|c| c.to_string()), index)
}

fn entry(id: &str, cat: Option<&str>) -> ModEntryDto {
    ModEntryDto {
        id: id.to_string(),
        layout_key: format!("k-{id}"),
        mod_id: id.to_string(),
        name: id.to_string(),
        version: "1".to_string(),
        loader: ModLoader::Forge,
        enabled: true,
        file_name: format!("{id}.jar"),
        path: format!("mods/{id}.jar"),
        icon_data_url: None,
        packaged_mods: Vec::new(),
        category_id: cat.map(|c| c.to_string()),
        sort_index: 0,
    }
}

fn keys(rows: &[(String, Option<String>, i64)]) -> Vec<(String, Option<String>, i64)> {
    rows.to_vec()
}

#[test]
fn snapshot_without_folder_lists_no_mods() {
    let s = build_snapshot(None, Vec::new(), &vec![artifact("a", "A", "ka")], &Vec::new());
    assert!(s.mods_dir.is_none());
    assert!(s.mods.is_empty());
}

#[test]
fn snapshot_orders_by_category_index_and_name() {
    let arts = vec![
        artifact("1", "zeta", "k1"),
        artifact("2", "Alpha", "k2"),
        artifact("3", "beta", "k3"),
        artifact("4", "Gamma", "k4"),
        artifact("5", "delta", "k5"),
    ];
    let rows = vec![row("k1", Some("cat"), 0), row("k2", Some("cat"), 0), row("k3", None, 2), row("k5", None, 1)];
    let s = build_snapshot(Some("/mods".to_string()), Vec::new(), &arts, &rows);
    let order: Vec<&str> = s.mods.iter().map(|m| m.id.as_str()).collect();
    // Root first (index 1, index 2, then the unplaced mod), then "cat" by lower-case name.
    assert_eq!(order, vec!["5", "3", "4", "2", "1"]);
    assert_eq!(s.mods[2].sort_index, i64::MAX / 4);
    assert_eq!(s.mods[2].category_id, None);
    assert_eq!(s.mods[3].category_id, Some("cat".to_string()));
    assert_eq!(s.mods_dir, Some("/mods".to_string()));
    assert_eq!(s.mods[0].packaged_mods.len(), 1);
    assert_eq!(s.mods[0].packaged_mods[0].mod_id, "k5");
}

#[test]
fn snapshot_gives_a_layout_row_to_one_artifact_only() {
    let arts = vec![artifact("1", "first", "same"), artifact("2", "second", "same")];
    let rows = vec![row("same", Some("cat"), 3)];
    let s = build_snapshot(Some("/m".to_string()), Vec::new(), &arts, &rows);
    assert_eq!(s.mods[0].id, "2");
    assert_eq!(s.mods[0].category_id, None);
    assert_eq!(s.mods[1].id, "1");
    assert_eq!(s.mods[1].category_id, Some("cat".to_string()));
    assert_eq!(s.mods[1].sort_index, 3);
}

#[test]
fn drop_within_a_category_renumbers_it() {
    let mods = vec![entry("a", Some("c")), entry("b", Some("c")), entry("x", None), entry("d", Some("c"))];
    let rows = mod_layout_updates(&mods, "a", &Some("c".to_string()), 2).unwrap();
    assert_eq!(
        keys(&rows),
        vec![row("k-b", Some("c"), 0), row("k-a", Some("c"), 1), row("k-d", Some("c"), 2)]
    );
    let rows = mod_layout_updates(&mods, "d", &Some("c".to_string()), 0).unwrap();
    assert_eq!(
        keys(&rows),
        vec![row("k-d", Some("c"), 0), row("k-a", Some("c"), 1), row("k-b", Some("c"), 2)]
    );
}

#[test]
fn drop_into_another_category_renumbers_both() {
    let mods = vec![entry("a", Some("c")), entry("b", Some("c")), entry("x", None), entry("y", None)];
    let rows = mod_layout_updates(&mods, "a", &None, 1).unwrap();
    assert_eq!(
        keys(&rows),
        vec![row("k-b", Some("c"), 0), row("k-x", None, 0), row("k-a", None, 1), row("k-y", None, 2)]
    );
    let rows = mod_layout_updates(&mods, "x", &Some("c".to_string()), 50).unwrap();
    assert_eq!(
        keys(&rows),
        vec![row("k-y", None, 0), row("k-a", Some("c"), 0), row("k-b", Some("c"), 1), row("k-x", Some("c"), 2)]
    );
}

#[test]
fn drop_of_unknown_mod_is_refused() {
    let mods = vec![entry("a", None)];
    assert!(matches!(mod_layout_updates(&mods, "zz", &None, 0), Err(AppError::MissingMod(ref s)) if s == "zz"));
    assert!(matches!(mod_toggle_paths(&mods, "zz", true), Err(AppError::MissingMod(_))));
}

#[test]
fn toggling_renames_jar_and_disabled() {
    assert_eq!(toggled_path("mods/a.jar", false), "mods/a.jar.disabled");
    assert_eq!(toggled_path("mods/a.jar.disabled", true), "mods/a.jar");
    assert_eq!(toggled_path("mods/a.jar", true), "mods/a.jar");
    assert_eq!(toggled_path("mods/a.jar.disabled", false), "mods/a.jar.disabled");
    assert_eq!(toggled_path("mods/a.txt", false), "mods/a.txt");
    assert_eq!(toggled_path(&toggled_path("mods/b.jar", false), true), "mods/b.jar");
    assert_eq!(toggled_path(&toggled_path("mods/b.jar.disabled", true), false), "mods/b.jar.disabled");
}

#[test]
fn toggle_paths_come_from_the_displayed_mod() {
    let mods = vec![entry("a", None), entry("b", None)];
    let (current, target) = mod_toggle_paths(&mods, "b", false).unwrap();
    assert_eq!(current, "mods/b.jar");
    assert_eq!(target, "mods/b.jar.disabled");
}

#[test]
fn recording_a_toggle_updates_the_artifact() {
    let mut arts = vec![artifact("a", "A", "ka"), artifact("b", "B", "kb")];
    record_toggle(&mut arts, "b", "mods/b.jar.disabled".to_string(), Some("b.jar.disabled".to_string()), false);
    assert_eq!(arts[1].path, "mods/b.jar.disabled");
    assert_eq!(arts[1].file_name, "b.jar.disabled");
    assert!(!arts[1].enabled);
    assert_eq!(arts[0].path, "mods/a.jar");
    record_toggle(&mut arts, "a", "mods/a.jar.disabled".to_string(), None, false);
    assert_eq!(arts[0].file_name, "a.jar");
    assert!(!arts[0].enabled);
    record_toggle(&mut arts, "zz", "x".to_string(), None, true);
    assert_eq!(arts.len(), 2);
}

#[test]
fn snapshot_is_the_same_for_the_same_inputs() {
    let arts = vec![artifact("b", "Beta", "kb"), artifact("a", "alpha", "ka")];
    let rows = vec![row("kb", None, 0)];
    let s1 = build_snapshot(Some("mods".to_string()), Vec::new(), &arts, &rows);
    let s2 = build_snapshot(Some("mods".to_string()), Vec::new(), &arts, &rows);
    let ids = |s: &minecraft_mod_organizer::domain::WorkspaceSnapshot| {
        s.mods.iter().map(|m| (m.id.clone(), m.category_id.clone(), m.sort_index)).collect::<Vec<_>>()
    };
    assert_eq!(ids(&s1), ids(&s2));
    assert_eq!(ids(&s1)[0].0, "b");
}

#[test]
fn drop_writes_only_the_two_categories() {
    let mods = vec![entry("a", Some("c")), entry("x", Some("d")), entry("y", None), entry("b", Some("c"))];
    let rows = mod_layout_updates(&mods, "a", &None, 0).unwrap();
    for (key, cat, _) in &rows {
        assert!(cat.is_none() || cat.as_deref() == Some("c"));
        assert_ne!(key, "k-x");
    }
    assert_eq!(rows.len(), 3);
}
