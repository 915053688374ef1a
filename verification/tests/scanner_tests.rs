use minecraft_mod_organizer::domain::{JarScanner, ModDescriptor, ModLoader, ScanError};
use minecraft_mod_organizer::scanner::{
    dedupe_descriptors, descriptor_from_fields, forge_descriptors, icon_from_json, icon_from_sizes, jar_paths, sort_dedup_paths, sort_paths, is_mod_file, mime_for_icon, parse_decimal_u32,
    parse_declared_jars, parse_fabric, parse_forge_like, parse_quilt, strip_disabled,
    strip_jar_suffix,
};
use std::io::{Cursor, Write};

fn jar(entries: &[(&str, &[u8])]) -> Vec<u8> {
    let mut writer = zip::ZipWriter::new(Cursor::new(Vec::new()));
    let options = zip::write::SimpleFileOptions::default();
    for (name, data) in entries {
        writer.start_file(*name, options).unwrap();
        writer.write_all(data).unwrap();
    }
    writer.finish().unwrap().into_inner()
}

fn descriptor(mod_id: &str, version: &str, loader: ModLoader) -> ModDescriptor {
    ModDescriptor {
        mod_id: mod_id.to_string(),
        name: mod_id.to_string(),
        version: version.to_string(),
        loader,
        icon_path_in_jar: None,
    }
}

#[test]
fn mod_files_are_jars_in_any_case() {
    assert!(is_mod_file("sodium.jar"));
    assert!(is_mod_file("Sodium.JAR"));
    assert!(is_mod_file("sodium.jar.disabled"));
    assert!(is_mod_file("Sodium.Jar.DISABLED"));
    assert!(!is_mod_file("sodium.zip"));
    assert!(!is_mod_file("sodium.disabled"));
    assert!(!is_mod_file(""));
}

#[test]
fn strip_disabled_takes_one_suffix() {
    assert_eq!(strip_disabled("mods/a.jar.disabled"), "mods/a.jar");
    assert_eq!(strip_disabled("mods/a.jar"), "mods/a.jar");
    assert_eq!(strip_disabled("x.disabled.disabled"), "x.disabled");
}

#[test]
fn strip_jar_suffix_trims_repeated_suffixes() {
    assert_eq!(strip_jar_suffix("sodium.jar.disabled"), "sodium");
    assert_eq!(strip_jar_suffix("sodium.jar.jar"), "sodium");
    assert_eq!(strip_jar_suffix("sodium.disabled.disabled.jar"), "sodium.disabled.disabled");
    assert_eq!(strip_jar_suffix("sodium"), "sodium");
}

#[test]
fn mime_follows_the_icon_extension() {
    assert_eq!(mime_for_icon(Some("assets/icon.JPG")), "image/jpeg");
    assert_eq!(mime_for_icon(Some("icon.jpeg")), "image/jpeg");
    assert_eq!(mime_for_icon(Some("icon.webp")), "image/webp");
    assert_eq!(mime_for_icon(Some("icon.gif")), "image/gif");
    assert_eq!(mime_for_icon(Some("icon.png")), "image/png");
    assert_eq!(mime_for_icon(Some("icon")), "image/png");
    assert_eq!(mime_for_icon(None), "image/png");
}

#[test]
fn decimal_sizes_parse_like_u32() {
    assert_eq!(parse_decimal_u32("16"), Some(16));
    assert_eq!(parse_decimal_u32("+16"), Some(16));
    assert_eq!(parse_decimal_u32("007"), Some(7));
    assert_eq!(parse_decimal_u32("4294967295"), Some(4294967295));
    assert_eq!(parse_decimal_u32("4294967296"), None);
    assert_eq!(parse_decimal_u32("-1"), None);
    assert_eq!(parse_decimal_u32("+"), None);
    assert_eq!(parse_decimal_u32(""), None);
    assert_eq!(parse_decimal_u32("12a"), None);
    for text in ["0", "1", "65535", "99999999999", "+0", "1 ", " 1"] {
        assert_eq!(parse_decimal_u32(text), text.parse::<u32>().ok());
    }
}

#[test]
fn icon_is_a_string_or_the_largest_size() {
    assert_eq!(icon_from_json("\"assets/icon.png\""), Some("assets/icon.png".to_string()));
    assert_eq!(
        icon_from_json("{\"16\": \"small.png\", \"128\": \"large.png\", \"32\": \"mid.png\"}"),
        Some("large.png".to_string())
    );
    assert_eq!(icon_from_json("{\"big\": \"a.png\", \"8\": 5}"), None);
    assert_eq!(icon_from_json("{}"), None);
    assert_eq!(icon_from_json("42"), None);
    assert_eq!(icon_from_json("not json"), None);
}

#[test]
fn fabric_manifest_fields_and_defaults() {
    let d = parse_fabric(
        "{\"id\": \"sodium\", \"name\": \"Sodium\", \"version\": \"0.5.8\", \"icon\": \"assets/sodium/icon.png\"}",
    );
    assert_eq!(d.mod_id, "sodium");
    assert_eq!(d.name, "Sodium");
    assert_eq!(d.version, "0.5.8");
    assert_eq!(d.loader, ModLoader::Fabric);
    assert_eq!(d.icon_path_in_jar, Some("assets/sodium/icon.png".to_string()));

    let d = parse_fabric("{\"id\": \"lithium\"}");
    assert_eq!(d.name, "lithium");
    assert_eq!(d.version, "?");
    assert_eq!(d.icon_path_in_jar, None);

    let d = parse_fabric("{ broken");
    assert_eq!(d.mod_id, "unknown");
    assert_eq!(d.name, "unknown");
    assert_eq!(d.version, "?");
}

#[test]
fn quilt_manifest_reads_under_quilt_loader() {
    let d = parse_quilt(
        "{\"quilt_loader\": {\"id\": \"qsl\", \"version\": \"7.0\", \"metadata\": {\"name\": \"Quilt Standard Libraries\", \"icon\": {\"64\": \"icon64.png\"}}}}",
    );
    assert_eq!(d.mod_id, "qsl");
    assert_eq!(d.name, "Quilt Standard Libraries");
    assert_eq!(d.version, "7.0");
    assert_eq!(d.loader, ModLoader::Quilt);
    assert_eq!(d.icon_path_in_jar, Some("icon64.png".to_string()));

    let d = parse_quilt("{\"id\": \"top-level-ignored\"}");
    assert_eq!(d.mod_id, "unknown");
    assert_eq!(d.name, "unknown");
    assert_eq!(d.version, "?");
}

#[test]
fn forge_manifest_lists_every_mod_table() {
    let toml = "modLoader=\"javafml\"\n[[mods]]\nmodId=\"create\"\ndisplayName=\"Create\"\nversion=\"0.5.1\"\nlogoFile=\"logo.png\"\n[[mods]]\nmodId=\"flywheel\"\n";
    let ds = parse_forge_like(toml, ModLoader::NeoForge);
    assert_eq!(ds.len(), 2);
    assert_eq!(ds[0].mod_id, "create");
    assert_eq!(ds[0].name, "Create");
    assert_eq!(ds[0].version, "0.5.1");
    assert_eq!(ds[0].loader, ModLoader::NeoForge);
    assert_eq!(ds[0].icon_path_in_jar, Some("logo.png".to_string()));
    assert_eq!(ds[1].mod_id, "flywheel");
    assert_eq!(ds[1].name, "flywheel");
    assert_eq!(ds[1].version, "?");
    assert_eq!(ds[1].icon_path_in_jar, None);

    assert!(parse_forge_like("this is = = not toml", ModLoader::Forge).is_empty());
    assert!(parse_forge_like("mods = 5", ModLoader::Forge).is_empty());
}

#[test]
fn declared_jars_keep_jar_paths_only() {
    let jars = parse_declared_jars(
        "{\"jars\": [{\"file\": \"META-INF/jars/a.jar\"}, \"b.JAR\", \"c.txt\", {\"other\": 1}, 7]}",
    );
    assert_eq!(jars, vec!["META-INF/jars/a.jar".to_string(), "b.JAR".to_string()]);
    assert!(parse_declared_jars("{\"id\": \"x\"}").is_empty());
}

#[test]
fn dedupe_keeps_first_per_loader_id_and_version() {
    let ds = vec![
        descriptor("Fabric-API", "1.0", ModLoader::Fabric),
        descriptor("fabric-api", "1.0", ModLoader::Fabric),
        descriptor("fabric-api", "1.1", ModLoader::Fabric),
        descriptor("fabric-api", "1.0", ModLoader::Quilt),
    ];
    let kept = dedupe_descriptors(ds);
    assert_eq!(kept.len(), 3);
    assert_eq!(kept[0].mod_id, "Fabric-API");
    assert_eq!(kept[1].version, "1.1");
    assert_eq!(kept[2].loader, ModLoader::Quilt);
}

#[test]
fn scan_reads_fabric_jar_with_icon_and_nested_jar() {
    let nested = jar(&[("fabric.mod.json", b"{\"id\": \"inner\", \"version\": \"2\"}")]);
    let outer = jar(&[
        (
            "fabric.mod.json",
            b"{\"id\": \"example\", \"name\": \"Example\", \"version\": \"1.0\", \"icon\": \"icon.png\", \"jars\": [{\"file\": \"META-INF/jars/inner.jar\"}]}",
        ),
        ("icon.png", &[137, 80, 78, 71, 1, 2, 3]),
        ("META-INF/jars/inner.jar", &nested),
    ]);
    let a = JarScanner::scan_file("mods/example.jar", Some("example.jar".to_string()), outer).unwrap();
    assert_eq!(a.id, "0d5e1203-1bdd-574a-972f-30130ae9035b");
    assert_eq!(a.layout_key, "Fabric:example");
    assert_eq!(a.descriptor.name, "Example");
    assert!(a.enabled);
    assert_eq!(a.file_name, "example.jar");
    assert_eq!(a.path, "mods/example.jar");
    assert_eq!(a.icon_data_url, Some("data:image/png;base64,iVBORwECAw==".to_string()));
    assert_eq!(a.packaged_mods.len(), 2);
    assert_eq!(a.packaged_mods[0].mod_id, "example");
    assert_eq!(a.packaged_mods[1].mod_id, "inner");
    assert_eq!(a.packaged_mods[1].version, "2");
}

#[test]
fn scan_keeps_identity_when_disabled() {
    let bytes = jar(&[("fabric.mod.json", b"{\"id\": \"example\"}")]);
    let on = JarScanner::scan_file("mods/example.jar", Some("example.jar".to_string()), bytes.clone()).unwrap();
    let off = JarScanner::scan_file(
        "mods/example.jar.disabled",
        Some("example.jar.disabled".to_string()),
        bytes,
    )
    .unwrap();
    assert_eq!(on.id, off.id);
    assert_eq!(on.layout_key, off.layout_key);
    assert!(on.enabled);
    assert!(!off.enabled);
}

#[test]
fn scan_without_manifest_uses_file_name() {
    let bytes = jar(&[("readme.txt", b"hello")]);
    let a = JarScanner::scan_file("mods/Plain.jar.disabled", None, bytes).unwrap();
    assert_eq!(a.file_name, "unknown.jar");
    assert_eq!(a.descriptor.mod_id, "unknown");
    assert_eq!(a.descriptor.version, "?");
    assert_eq!(a.descriptor.loader, ModLoader::Unknown);
    assert_eq!(a.layout_key, "Unknown:unknown");
    assert_eq!(a.packaged_mods.len(), 1);
    assert_eq!(a.icon_data_url, None);
    assert!(!a.enabled);

    let bytes = jar(&[("readme.txt", b"hello")]);
    let a = JarScanner::scan_file("mods/Plain.jar", Some("Plain.jar".to_string()), bytes).unwrap();
    assert_eq!(a.descriptor.mod_id, "Plain");
    assert_eq!(a.descriptor.name, "Plain");
}

#[test]
fn scan_prefers_fabric_then_quilt_then_neoforge_then_forge() {
    let bytes = jar(&[
        ("META-INF/mods.toml", b"[[mods]]\nmodId=\"forge_side\"\n"),
        ("META-INF/neoforge.mods.toml", b"[[mods]]\nmodId=\"neo_side\"\n"),
    ]);
    let a = JarScanner::scan_file("m.jar", Some("m.jar".to_string()), bytes).unwrap();
    assert_eq!(a.descriptor.mod_id, "neo_side");
    assert_eq!(a.descriptor.loader, ModLoader::NeoForge);

    let bytes = jar(&[
        ("quilt.mod.json", b"{\"quilt_loader\": {\"id\": \"q\"}}"),
        ("META-INF/mods.toml", b"[[mods]]\nmodId=\"f\"\n"),
    ]);
    let a = JarScanner::scan_file("m.jar", Some("m.jar".to_string()), bytes).unwrap();
    assert_eq!(a.descriptor.mod_id, "q");
    assert_eq!(a.layout_key, "Quilt:q");
}

#[test]
fn scan_finds_jarjar_entries_and_stops_at_depth() {
    let level4 = jar(&[("fabric.mod.json", b"{\"id\": \"d5\"}")]);
    let level3 = jar(&[("fabric.mod.json", b"{\"id\": \"d4\"}"), ("META-INF/jars/y.jar", &level4)]);
    let level2 = jar(&[("fabric.mod.json", b"{\"id\": \"d3\"}"), ("META-INF/jars/x.jar", &level3)]);
    let level1 = jar(&[("fabric.mod.json", b"{\"id\": \"d2\"}"), ("META-INF/jars/x.jar", &level2)]);
    let level0 = jar(&[
        ("META-INF/mods.toml", b"[[mods]]\nmodId=\"top\"\n"),
        ("META-INF/JarJar/inner.jar", &level1),
    ]);
    let a = JarScanner::scan_file("m.jar", Some("m.jar".to_string()), level0).unwrap();
    let ids: Vec<&str> = a.packaged_mods.iter().map(|d| d.mod_id.as_str()).collect();
    assert_eq!(ids, vec!["top", "d2", "d3", "d4"]);
}

#[test]
fn scan_refuses_bytes_that_are_no_archive() {
    let r = JarScanner::scan_file("m.jar", Some("m.jar".to_string()), b"not a zip".to_vec());
    assert!(matches!(r, Err(ScanError::Zip(_))));
}

#[test]
fn descriptor_fields_take_their_defaults() {
    let d = descriptor_from_fields(None, None, None, ModLoader::Fabric, None);
    assert_eq!(d.mod_id, "unknown");
    assert_eq!(d.name, "unknown");
    assert_eq!(d.version, "?");
    assert_eq!(d.loader, ModLoader::Fabric);
    assert_eq!(d.icon_path_in_jar, None);
    let d = descriptor_from_fields(Some("sodium".to_string()), None, Some("0.5".to_string()), ModLoader::Quilt, Some("icon.png".to_string()));
    assert_eq!(d.name, "sodium");
    assert_eq!(d.version, "0.5");
    assert_eq!(d.icon_path_in_jar.as_deref(), Some("icon.png"));
    let d = descriptor_from_fields(Some("a".to_string()), Some("Alpha".to_string()), None, ModLoader::Forge, None);
    assert_eq!(d.name, "Alpha");
}

#[test]
fn paths_sort_as_strings() {
    let v = |xs: &[&str]| xs.iter().map(|x| x.to_string()).collect::<Vec<_>>();
    assert_eq!(sort_paths(v(&["mods/b.jar", "mods/a.jar.disabled", "mods/a.jar", "mods/B.jar"])),
        v(&["mods/B.jar", "mods/a.jar", "mods/a.jar.disabled", "mods/b.jar"]));
    assert_eq!(sort_dedup_paths(v(&["x.jar", "a.jar", "x.jar"])), v(&["a.jar", "x.jar"]));
}

#[test]
fn dedupe_keeps_input_order_and_is_idempotent() {
    let ds = vec![
        descriptor("b", "1", ModLoader::Forge),
        descriptor("a", "1", ModLoader::Forge),
        descriptor("B", "1", ModLoader::Forge),
        descriptor("c", "1", ModLoader::Forge),
        descriptor("a", "1", ModLoader::Forge),
    ];
    let once = dedupe_descriptors(ds);
    let ids: Vec<&str> = once.iter().map(|d| d.mod_id.as_str()).collect();
    assert_eq!(ids, vec!["b", "a", "c"]);
    let twice = dedupe_descriptors(once.clone());
    let ids2: Vec<&str> = twice.iter().map(|d| d.mod_id.as_str()).collect();
    assert_eq!(ids2, ids);
}

#[test]
fn forge_manifest_reads_mods_beside_deep_tables() {
    let mut header = String::from("[deep");
    for i in 0..70 {
        header.push_str(&format!(".k{i}"));
    }
    header.push_str("]\nx = ");
    header.push_str(&"[".repeat(70));
    header.push_str(&"]".repeat(70));
    header.push_str("\n");
    let toml = format!("{header}[[mods]]\nmodId=\"deepmod\"\nversion=\"2\"\n");
    let ds = parse_forge_like(&toml, ModLoader::Forge);
    assert_eq!(ds.len(), 1);
    assert_eq!(ds[0].mod_id, "deepmod");
    assert_eq!(ds[0].version, "2");
}

#[test]
fn forge_descriptors_take_the_table_fields() {
    let tables = vec![
        (Some("a".to_string()), Some("Alpha".to_string()), Some("1".to_string()), Some("a.png".to_string())),
        (None, None, None, None),
    ];
    let ds = forge_descriptors(&tables, ModLoader::NeoForge);
    assert_eq!(ds.len(), 2);
    assert_eq!(ds[0].name, "Alpha");
    assert_eq!(ds[0].icon_path_in_jar.as_deref(), Some("a.png"));
    assert_eq!(ds[1].mod_id, "unknown");
    assert_eq!(ds[1].name, "unknown");
    assert_eq!(ds[1].version, "?");
    assert_eq!(ds[1].loader, ModLoader::NeoForge);
}

#[test]
fn icon_sizes_pick_the_last_largest() {
    let m = |k: &str, v: Option<&str>| (k.to_string(), v.map(|x| x.to_string()));
    assert_eq!(icon_from_sizes(&vec![m("16", Some("s.png")), m("64", Some("l.png")), m("32", Some("m.png"))]), Some("l.png".to_string()));
    assert_eq!(icon_from_sizes(&vec![m("64", Some("a.png")), m("+64", Some("b.png"))]), Some("b.png".to_string()));
    assert_eq!(icon_from_sizes(&vec![m("big", Some("x.png")), m("128", None)]), None);
    assert_eq!(icon_from_sizes(&Vec::new()), None);
}

#[test]
fn declared_paths_keep_jars_only() {
    let e = |v: Option<&str>| v.map(|x| x.to_string());
    assert_eq!(
        jar_paths(&vec![e(Some("META-INF/jars/a.JAR")), e(None), e(Some("readme.md")), e(Some("b.jar"))]),
        vec!["META-INF/jars/a.JAR".to_string(), "b.jar".to_string()]
    );
}
