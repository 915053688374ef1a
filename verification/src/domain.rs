//! The entities of the organizer: virtual categories, mods found in the mods
//! folder, and the snapshot handed to the user interface.
use vstd::prelude::*;

verus! {

/// The view of an optional text.
pub open spec fn opt_view(o: Option<String>) -> Option<Seq<char>> {
    match o {
        Some(s) => Some(s@),
        None => None,
    }
}

/// A copy of an optional text.
pub fn clone_opt(o: &Option<String>) -> (r: Option<String>)
    ensures
        r == *o,
{
    match o {
        Some(s) => Some(s.clone()),
        None => None,
    }
}

/// Whether two optional texts are equal.
pub fn opt_text_eq(a: &Option<String>, b: &Option<String>) -> (r: bool)
    ensures
        r == (opt_view(*a) == opt_view(*b)),
{
    match (a, b) {
        (Some(x), Some(y)) => x.eq(y),
        (None, None) => true,
        _ => false,
    }
}

/// The views of a list of texts.
pub open spec fn texts(v: Seq<String>) -> Seq<Seq<char>> {
    v.map_values(|s: String| s@)
}

/// A virtual category: a node of the category tree kept beside the mods folder.
/// `parent_id` is `None` for a category at the root.
pub struct Category {
    pub id: String,
    pub name: String,
    pub parent_id: Option<String>,
    pub sort_index: i64,
    pub color: Option<String>,
    pub icon_hex: Option<String>,
}

impl Clone for Category {
    fn clone(&self) -> (r: Self)
        ensures
            r == *self,
    {
        Category {
            id: self.id.clone(),
            name: self.name.clone(),
            parent_id: clone_opt(&self.parent_id),
            sort_index: self.sort_index,
            color: clone_opt(&self.color),
            icon_hex: clone_opt(&self.icon_hex),
        }
    }
}

/// The loader a mod is written for.
#[derive(Debug, Clone, Copy, PartialEq, Eq, Structural)]
pub enum ModLoader {
    Fabric,
    Quilt,
    Forge,
    NeoForge,
    Unknown,
}

/// The name of a loader as its `Debug` form writes it.
pub open spec fn loader_name(l: ModLoader) -> Seq<char> {
    match l {
        ModLoader::Fabric => seq!['F', 'a', 'b', 'r', 'i', 'c'],
        ModLoader::Quilt => seq!['Q', 'u', 'i', 'l', 't'],
        ModLoader::Forge => seq!['F', 'o', 'r', 'g', 'e'],
        ModLoader::NeoForge => seq!['N', 'e', 'o', 'F', 'o', 'r', 'g', 'e'],
        ModLoader::Unknown => seq!['U', 'n', 'k', 'n', 'o', 'w', 'n'],
    }
}

impl ModLoader {
    /// The name of the loader, as `format!("{:?}", loader)` writes it.
    pub fn name_chars(&self) -> (r: Vec<char>)
        ensures
            r@ == loader_name(*self),
    {
        let r = match self {
            ModLoader::Fabric => vec!['F', 'a', 'b', 'r', 'i', 'c'],
            ModLoader::Quilt => vec!['Q', 'u', 'i', 'l', 't'],
            ModLoader::Forge => vec!['F', 'o', 'r', 'g', 'e'],
            ModLoader::NeoForge => vec!['N', 'e', 'o', 'F', 'o', 'r', 'g', 'e'],
            ModLoader::Unknown => vec!['U', 'n', 'k', 'n', 'o', 'w', 'n'],
        };
        assert(r@ =~= loader_name(*self));
        r
    }
}

/// What a mod's manifest says of it.
pub struct ModDescriptor {
    pub mod_id: String,
    pub name: String,
    pub version: String,
    pub loader: ModLoader,
    pub icon_path_in_jar: Option<String>,
}

impl Clone for ModDescriptor {
    fn clone(&self) -> (r: Self)
        ensures
            r == *self,
    {
        ModDescriptor {
            mod_id: self.mod_id.clone(),
            name: self.name.clone(),
            version: self.version.clone(),
            loader: self.loader,
            icon_path_in_jar: clone_opt(&self.icon_path_in_jar),
        }
    }
}

/// A mod file found in the mods folder (`*.jar` or `*.jar.disabled`).
/// `path` is the file's path as text.
pub struct ModArtifact {
    pub id: String,
    pub layout_key: String,
    pub descriptor: ModDescriptor,
    pub packaged_mods: Vec<ModDescriptor>,
    pub enabled: bool,
    pub file_name: String,
    pub path: String,
    pub icon_data_url: Option<String>,
}

impl Clone for ModArtifact {
    fn clone(&self) -> (r: Self)
        ensures
            r.id == self.id,
            r.layout_key == self.layout_key,
            r.descriptor == self.descriptor,
            r.packaged_mods@ == self.packaged_mods@,
            r.enabled == self.enabled,
            r.file_name == self.file_name,
            r.path == self.path,
            r.icon_data_url == self.icon_data_url,
    {
        ModArtifact {
            id: self.id.clone(),
            layout_key: self.layout_key.clone(),
            descriptor: self.descriptor.clone(),
            packaged_mods: clone_descriptors(&self.packaged_mods),
            enabled: self.enabled,
            file_name: self.file_name.clone(),
            path: self.path.clone(),
            icon_data_url: clone_opt(&self.icon_data_url),
        }
    }
}

/// A copy of a list of descriptors.
pub fn clone_descriptors(v: &Vec<ModDescriptor>) -> (r: Vec<ModDescriptor>)
    ensures
        r@ == v@,
{
    let mut r: Vec<ModDescriptor> = Vec::new();
    let mut i: usize = 0;
    while i < v.len()
        invariant
            i <= v.len(),
            r@ == v@.subrange(0, i as int),
        decreases v.len() - i,
    {
        r.push(v[i].clone());
        i = i + 1;
        assert(r@ =~= v@.subrange(0, i as int));
    }
    assert(v@.subrange(0, v.len() as int) =~= v@);
    r
}

/// One of the mods packaged in a mod file, as the user interface shows it.
pub struct PackagedModDto {
    pub mod_id: String,
    pub name: String,
    pub version: String,
    pub loader: ModLoader,
}

/// A mod with its place in the category tree, as the user interface shows it.
pub struct ModEntryDto {
    pub id: String,
    pub layout_key: String,
    pub mod_id: String,
    pub name: String,
    pub version: String,
    pub loader: ModLoader,
    pub enabled: bool,
    pub file_name: String,
    pub path: String,
    pub icon_data_url: Option<String>,
    pub packaged_mods: Vec<PackagedModDto>,
    pub category_id: Option<String>,
    pub sort_index: i64,
}

/// Everything the user interface shows: the mods folder, the category tree
/// and the mods in display order.
pub struct WorkspaceSnapshot {
    pub mods_dir: Option<String>,
    pub categories: Vec<Category>,
    pub mods: Vec<ModEntryDto>,
}

/// Why a request of the user was refused. The variants that hold a text
/// carry the message of a failure outside the library (file system,
/// database, scanner).
#[derive(Debug)]
pub enum AppError {
    MissingDirectory(String),
    MissingCategory(String),
    CategoryCycle,
    MissingMod(String),
    Io(String),
    Db(String),
    Scan(String),
}

/// Why a mod file could not be read.
#[derive(Debug)]
pub enum ScanError {
    Io(std::io::Error),
    Zip(zip::result::ZipError),
}

/// The scanner of mod files; its functions stand in `scanner`.
pub struct JarScanner;

/// The place of the organizer's database; its queries are run by the application.
pub struct SqliteRepository {
    path: String,
}

impl SqliteRepository {
    /// A repository for the database file at `path`.
    pub fn new(path: String) -> (r: Self)
        ensures
            r.path() == path,
    {
        SqliteRepository { path }
    }

    /// The path of the database file.
    pub closed spec fn path(&self) -> String {
        self.path
    }

    /// The path of the database file.
    pub fn db_path(&self) -> (r: &String)
        ensures
            *r == self.path(),
    {
        &self.path
    }
}

} // verus!
