# minecraft_mod_organizer

The core of a desktop organizer for Minecraft mods: a virtual category tree
kept beside the `mods` folder, drag-and-drop placement of mods and
categories, switching a mod on or off by renaming `mod.jar` to
`mod.jar.disabled`, and reading mod metadata (Fabric, Quilt, NeoForge,
Forge manifests, nested jars, icons) from the jar files.

The library under `src/` is written in Verus and proved against its
contracts:

- `domain` — the entities (categories, mod descriptors and artifacts, the
  snapshot shown to the user, errors).
- `hierarchy` — the category tree: lookup, descendant test, where a moved
  category goes, renumbering of siblings; the move never creates a cycle.
- `layout` — the snapshot in display order, the layout rows written when a
  mod is dropped, and the on/off renaming of mod files.
- `scanner` — which files are mods, the manifest readers, nested jar
  discovery, de-duplication, and the artifact built from a jar's bytes.
- `watch` — the watcher's decisions: which file events matter, and when a
  burst of changes has settled so that the folder is rescanned once.
- `order` — the stable ordering used for display and de-duplication.
- `text` — character-level helpers with their specifications.
- `outside` — the declarations and wrappers through which the library calls
  `zip`, `serde_json`, `toml`, `base64`, `uuid` and `std`.

`app/` holds the unverified shell: the Tauri commands, the SQLite
repository, the folder watcher's channel, timer and thread, and the
file-system reads and renames.
`tests/` runs the library on concrete values.
