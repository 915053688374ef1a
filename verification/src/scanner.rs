//! Reading mod files: which files are mods, what their manifests say
//! (Fabric, Quilt, NeoForge, Forge), the mods packaged inside them, and the
//! artifact that the organizer keeps for each file.
use vstd::prelude::*;
use crate::domain::{clone_opt, opt_view, ModDescriptor, ModLoader, loader_name};
use crate::order::{key_views, place_by_rank, stable_ranks, stable_sorted, KeyView, SortKey};
use crate::outside::{
    archive_data, archive_entry_name, archive_len, archive_names, archive_read, base64_encode,
    base64_standard, open_archive, stable_uuid, utf8_text, uuid_v5_url, zip_contents, JarArchive,
    json_array, json_array_texts, json_member, json_member_text, json_object, json_object_texts,
    json_string, json_string_value, pairs_of, texts_of, toml_mods, toml_mod_fields, fields_view,
    ModFields,
};
use crate::layout::{disabled_chars, disabled_suffix, jar_chars, jar_suffix, toggled};
use crate::text::{
    ascii_lower, chars_of, concat, ends_with, owned, prefix_of, string_of, strip_suffix,
    replace_char, replace_chars, starts_with, text_eq, text_ends_with, text_starts_with,
    to_ascii_lower, trim_end, trim_end_of,
};
use crate::domain::ScanError;
use crate::domain::{JarScanner, ModArtifact};

verus! {

broadcast use vstd::string::group_string_axioms;

/// The suffix of a disabled mod file name, after `.jar`.
pub open spec fn disabled_jar_suffix() -> Seq<char> {
    jar_suffix() + disabled_suffix()
}

/// A file name is a mod file when, in ASCII lower case, it ends with `.jar`
/// or `.jar.disabled`.
pub open spec fn is_mod_file_name(name: Seq<char>) -> bool {
    ends_with(ascii_lower(name), jar_suffix()) || ends_with(ascii_lower(name), disabled_jar_suffix())
}

/// Whether a file, by its name, is a mod file (`*.jar` or `*.jar.disabled`,
/// in any case). A path without a file name is given as `""`.
pub fn is_mod_file(file_name: &str) -> (r: bool)
    ensures
        r == is_mod_file_name(file_name@),
{
    let lower = to_ascii_lower(chars_of(file_name).as_slice());
    let both = concat(jar_chars().as_slice(), disabled_chars().as_slice());
    text_ends_with(lower.as_slice(), jar_chars().as_slice()) || text_ends_with(
        lower.as_slice(),
        both.as_slice(),
    )
}

/// The path of a mod file without a trailing `.disabled`.
pub open spec fn stable_path(path: Seq<char>) -> Seq<char> {
    match strip_suffix(path, disabled_suffix()) {
        Some(s) => s,
        None => path,
    }
}

/// The path of a mod file without a trailing `.disabled`: the same for the
/// file switched on and switched off.
pub fn strip_disabled(path: &str) -> (r: String)
    ensures
        r@ == stable_path(path@),
{
    let s = chars_of(path);
    let d = disabled_chars();
    if text_ends_with(s.as_slice(), d.as_slice()) {
        string_of(prefix_of(s.as_slice(), s.len() - d.len()).as_slice())
    } else {
        string_of(s.as_slice())
    }
}

/// A file name without any trailing `.disabled`, then without any trailing `.jar`.
pub open spec fn bare_name(name: Seq<char>) -> Seq<char> {
    trim_end(trim_end(name, disabled_suffix()), jar_suffix())
}

/// A file name without any trailing `.disabled`, then without any trailing `.jar`.
pub fn strip_jar_suffix(name: &str) -> (r: String)
    ensures
        r@ == bare_name(name@),
{
    let s = chars_of(name);
    let a = trim_end_of(s.as_slice(), disabled_chars().as_slice());
    let b = trim_end_of(a.as_slice(), jar_chars().as_slice());
    string_of(b.as_slice())
}

/// The image type of an icon by the ending of its path, in ASCII lower case:
/// `.jpg`/`.jpeg`, `.webp`, `.gif`; any other is taken for PNG.
pub open spec fn icon_mime(path: Option<Seq<char>>) -> Seq<char> {
    let p = ascii_lower(
        match path {
            Some(s) => s,
            None => Seq::empty(),
        },
    );
    if ends_with(p, seq!['.', 'j', 'p', 'g']) || ends_with(p, seq!['.', 'j', 'p', 'e', 'g']) {
        "image/jpeg"@
    } else if ends_with(p, seq!['.', 'w', 'e', 'b', 'p']) {
        "image/webp"@
    } else if ends_with(p, seq!['.', 'g', 'i', 'f']) {
        "image/gif"@
    } else {
        "image/png"@
    }
}

/// The image type of an icon by the ending of its path.
pub fn mime_for_icon(path: Option<&str>) -> (r: &'static str)
    ensures
        r@ == icon_mime(
            match path {
                Some(s) => Some(s@),
                None => None,
            },
        ),
{
    let p = match path {
        Some(s) => to_ascii_lower(chars_of(s).as_slice()),
        None => Vec::new(),
    };
    let jpg = vec!['.', 'j', 'p', 'g'];
    let jpeg = vec!['.', 'j', 'p', 'e', 'g'];
    let webp = vec!['.', 'w', 'e', 'b', 'p'];
    let gif = vec!['.', 'g', 'i', 'f'];
    assert(jpg@ =~= seq!['.', 'j', 'p', 'g']);
    assert(jpeg@ =~= seq!['.', 'j', 'p', 'e', 'g']);
    assert(webp@ =~= seq!['.', 'w', 'e', 'b', 'p']);
    assert(gif@ =~= seq!['.', 'g', 'i', 'f']);
    proof {
        let e: Seq<char> = Seq::empty();
        assert(ascii_lower(e) =~= e);
    }
    if text_ends_with(p.as_slice(), jpg.as_slice()) || text_ends_with(p.as_slice(), jpeg.as_slice()) {
        "image/jpeg"
    } else if text_ends_with(p.as_slice(), webp.as_slice()) {
        "image/webp"
    } else if text_ends_with(p.as_slice(), gif.as_slice()) {
        "image/gif"
    } else {
        "image/png"
    }
}

/// The value of a sequence of decimal digits.
pub open spec fn digits_value(s: Seq<char>) -> int
    decreases s.len(),
{
    if s.len() == 0 {
        0
    } else {
        digits_value(s.drop_last()) * 10 + (s.last() as int - '0' as int)
    }
}

/// `c` is an ASCII digit.
pub open spec fn is_digit(c: char) -> bool {
    '0' <= c && c <= '9'
}

/// Every character of `d` is an ASCII digit.
pub open spec fn all_digits(d: Seq<char>) -> bool {
    forall|i: int| 0 <= i < d.len() ==> is_digit(#[trigger] d[i])
}

/// The text of a number without its leading `+`, if any.
pub open spec fn unsigned_part(s: Seq<char>) -> Seq<char> {
    if s.len() > 0 && s[0] == '+' {
        s.subrange(1, s.len() as int)
    } else {
        s
    }
}

/// What `str::parse::<u32>` gives: an optional `+`, then one or more ASCII
/// digits whose value fits in a `u32`.
pub open spec fn parse_u32(s: Seq<char>) -> Option<u32> {
    let d = unsigned_part(s);
    if d.len() == 0 || !all_digits(d) || digits_value(d) > u32::MAX {
        None
    } else {
        Some(digits_value(d) as u32)
    }
}

proof fn lemma_digits_value_nonneg(s: Seq<char>)
    requires
        forall|i: int| 0 <= i < s.len() ==> is_digit(s[i]),
    ensures
        digits_value(s) >= 0,
    decreases s.len(),
{
    if s.len() > 0 {
        lemma_digits_value_nonneg(s.drop_last());
    }
}

proof fn lemma_digits_value_grows(s: Seq<char>, k: int)
    requires
        0 <= k <= s.len(),
        forall|i: int| 0 <= i < s.len() ==> is_digit(s[i]),
    ensures
        digits_value(s.subrange(0, k)) <= digits_value(s),
    decreases s.len() - k,
{
    if k < s.len() {
        lemma_digits_value_grows(s, k + 1);
        assert(s.subrange(0, k + 1).drop_last() =~= s.subrange(0, k));
        lemma_digits_value_nonneg(s.subrange(0, k));
    } else {
        assert(s.subrange(0, k) =~= s);
    }
}

/// Reads a decimal `u32` as `str::parse::<u32>` does.
pub fn parse_decimal_u32(text: &str) -> (r: Option<u32>)
    ensures
        r == parse_u32(text@),
{
    let s = chars_of(text);
    let start: usize = if s.len() > 0 && s[0] == '+' {
        1
    } else {
        0
    };
    let ghost d = s@.subrange(start as int, s@.len() as int);
    assert(start == 0 ==> d =~= s@);
    assert(d == (if s@.len() > 0 && s@[0] == '+' {
        s@.subrange(1, s@.len() as int)
    } else {
        s@
    }));
    if s.len() == start {
        return None;
    }
    let mut value: u32 = 0;
    let mut i: usize = start;
    while i < s.len()
        invariant
            start <= i <= s.len(),
            s@ == text@,
            d == s@.subrange(start as int, s@.len() as int),
            d == (if s@.len() > 0 && s@[0] == '+' {
                s@.subrange(1, s@.len() as int)
            } else {
                s@
            }),
            forall|j: int| start <= j < i ==> is_digit(s@[j]),
            value == digits_value(s@.subrange(start as int, i as int)),
        decreases s.len() - i,
    {
        let c = s[i];
        if !('0' <= c && c <= '9') {
            assert(!is_digit(d[i - start]));
            assert(!all_digits(d));
            return None;
        }
        let digit: u32 = (c as u32) - ('0' as u32);
        assert(s@.subrange(start as int, i + 1).drop_last() =~= s@.subrange(start as int, i as int));
        if value > 429496729 || (value == 429496729 && digit > 5) {
            proof {
                assert(digits_value(s@.subrange(start as int, i + 1)) > u32::MAX);
                if all_digits(d) {
                    assert(s@.subrange(start as int, i + 1) =~= d.subrange(0, i + 1 - start));
                    lemma_digits_value_grows(d, i + 1 - start);
                }
            }
            return None;
        }
        value = value * 10 + digit;
        i = i + 1;
    }
    assert(s@.subrange(start as int, s.len() as int) =~= d);
    Some(value)
}

} // verus!

verus! {

/// What a descriptor says: mod id, name, version, loader, icon path.
pub type DescView = (Seq<char>, Seq<char>, Seq<char>, ModLoader, Option<Seq<char>>);

/// The view of a descriptor.
pub open spec fn desc_view(d: ModDescriptor) -> DescView {
    (d.mod_id@, d.name@, d.version@, d.loader, opt_view(d.icon_path_in_jar))
}

/// The views of a list of descriptors.
pub open spec fn desc_views(ds: Seq<ModDescriptor>) -> Seq<DescView> {
    Seq::new(ds.len(), |i: int| desc_view(ds[i]))
}

/// The JSON text found by following the member names of `path` from `text`.
pub open spec fn json_at(text: Seq<char>, path: Seq<Seq<char>>) -> Option<Seq<char>>
    decreases path.len(),
{
    if path.len() == 0 {
        Some(text)
    } else {
        match json_member_text(text, path[0]) {
            Some(t) => json_at(t, path.subrange(1, path.len() as int)),
            None => None,
        }
    }
}

/// The string found by following the member names of `path` from `text`.
pub open spec fn json_str_at(text: Seq<char>, path: Seq<Seq<char>>) -> Option<Seq<char>> {
    match json_at(text, path) {
        Some(t) => json_string_value(t),
        None => None,
    }
}

/// The views of a list of names.
pub open spec fn path_view(path: Seq<&str>) -> Seq<Seq<char>> {
    Seq::new(path.len(), |i: int| path[i]@)
}

/// The string found by following the member names of `path` from the JSON text `text`.
pub fn str_at(text: &str, path: &[&str]) -> (r: Option<String>)
    ensures
        opt_view(r) == json_str_at(text@, path_view(path@)),
{
    let ghost full = path_view(path@);
    let mut cursor = owned(text);
    let mut i: usize = 0;
    assert(full.subrange(0, full.len() as int) =~= full);
    while i < path.len()
        invariant
            i <= path.len(),
            full == path_view(path@),
            json_at(text@, full) == json_at(cursor@, full.subrange(i as int, full.len() as int)),
        decreases path.len() - i,
    {
        assert(full.subrange(i as int, full.len() as int).subrange(1, full.len() - i) =~= full.subrange(
            i + 1,
            full.len() as int,
        ));
        match json_member(cursor.as_str(), path[i]) {
            Some(t) => {
                cursor = t;
            },
            None => {
                return None;
            },
        }
        i = i + 1;
    }
    assert(full.subrange(i as int, full.len() as int) =~= Seq::<Seq<char>>::empty());
    json_string(cursor.as_str())
}

/// The icon candidates among members given by name and string value (if
/// the value is a string): each member whose name reads as a `u32` size and
/// whose value is a string.
pub open spec fn icon_candidates(entries: Seq<(Seq<char>, Option<Seq<char>>)>) -> Seq<(u32, Seq<char>)>
    decreases entries.len(),
{
    if entries.len() == 0 {
        Seq::empty()
    } else {
        let prev = icon_candidates(entries.drop_last());
        let e = entries.last();
        match (parse_u32(e.0), e.1) {
            (Some(n), Some(p)) => prev.push((n, p)),
            _ => prev,
        }
    }
}

/// The last candidate of the greatest size, as `Iterator::max_by_key` picks it.
pub open spec fn last_max(c: Seq<(u32, Seq<char>)>) -> Option<(u32, Seq<char>)>
    decreases c.len(),
{
    if c.len() == 0 {
        None
    } else {
        match last_max(c.drop_last()) {
            None => Some(c.last()),
            Some(b) => if c.last().0 >= b.0 {
                Some(c.last())
            } else {
                Some(b)
            },
        }
    }
}

/// The icon path of the greatest size among the members, the last one of
/// that size; none when no member is a size with a string value.
pub open spec fn largest_icon(entries: Seq<(Seq<char>, Option<Seq<char>>)>) -> Option<Seq<char>> {
    match last_max(icon_candidates(entries)) {
        Some(b) => Some(b.1),
        None => None,
    }
}

/// The members of a JSON object, each with its value's string if it is one.
pub open spec fn string_members(es: Seq<(Seq<char>, Seq<char>)>) -> Seq<(Seq<char>, Option<Seq<char>>)> {
    Seq::new(es.len(), |i: int| (es[i].0, json_string_value(es[i].1)))
}

/// The icon path that a JSON value gives: the string itself, or, for an
/// object of sizes, the path of the greatest size.
pub open spec fn icon_of(v: Seq<char>) -> Option<Seq<char>> {
    match json_string_value(v) {
        Some(s) => Some(s),
        None => match json_object_texts(v) {
            None => None,
            Some(es) => largest_icon(string_members(es)),
        },
    }
}

/// The views of members given by name and optional string value.
pub open spec fn members_view(v: Seq<(String, Option<String>)>) -> Seq<(Seq<char>, Option<Seq<char>>)> {
    Seq::new(v.len(), |i: int| (v[i].0@, opt_view(v[i].1)))
}

/// The icon path of the greatest size among members given by name (a size
/// when it reads as a `u32`) and string value.
pub fn icon_from_sizes(entries: &Vec<(String, Option<String>)>) -> (r: Option<String>)
    ensures
        opt_view(r) == largest_icon(members_view(entries@)),
        icon_by_size(members_view(entries@), opt_view(r)),
{
    proof {
        lemma_largest_icon_by_size(members_view(entries@));
    }
    let ghost es = members_view(entries@);
    let mut best_size: u32 = 0;
    let mut best_path: Option<String> = None;
    let mut i: usize = 0;
    while i < entries.len()
        invariant
            i <= entries.len(),
            es == members_view(entries@),
            match last_max(icon_candidates(es.take(i as int))) {
                None => best_path is None,
                Some(b) => best_path matches Some(p) && p@ == b.1 && best_size == b.0,
            },
        decreases entries.len() - i,
    {
        assert(es.take(i as int + 1).drop_last() =~= es.take(i as int));
        let ghost cands = icon_candidates(es.take(i as int));
        match parse_decimal_u32(entries[i].0.as_str()) {
            Some(size) => match &entries[i].1 {
                Some(path) => {
                    assert(icon_candidates(es.take(i as int + 1)) == cands.push((size, path@)));
                    assert(cands.push((size, path@)).drop_last() =~= cands);
                    let replace = match &best_path {
                        None => true,
                        Some(_) => size >= best_size,
                    };
                    if replace {
                        best_size = size;
                        best_path = Some(path.clone());
                    }
                },
                None => {},
            },
            None => {},
        }
        i = i + 1;
    }
    assert(es.take(entries.len() as int) =~= es);
    best_path
}

/// The icon path that a JSON value gives.
pub fn icon_from_json(v: &str) -> (r: Option<String>)
    ensures
        opt_view(r) == icon_of(v@),
        icon_read_from(Some(v@), opt_view(r)),
{
    proof {
        match json_object_texts(v@) {
            Some(es) => lemma_largest_icon_by_size(string_members(es)),
            None => {},
        }
    }
    match json_string(v) {
        Some(s) => {
            return Some(s);
        },
        None => {},
    }
    let entries = match json_object(v) {
        Some(e) => e,
        None => {
            return None;
        },
    };
    let ghost es = pairs_of(entries@);
    let mut members: Vec<(String, Option<String>)> = Vec::new();
    let mut i: usize = 0;
    while i < entries.len()
        invariant
            i <= entries.len(),
            es == pairs_of(entries@),
            members@.len() == i,
            members_view(members@) == string_members(es.take(i as int)),
        decreases entries.len() - i,
    {
        let value = json_string(entries[i].1.as_str());
        let key = entries[i].0.clone();
        let ghost before = members@;
        assert(es[i as int] == (entries@[i as int].0@, entries@[i as int].1@));
        assert(opt_view(value) == json_string_value(es[i as int].1));
        assert(key@ == es[i as int].0);
        members.push((key, value));
        assert forall|j: int| 0 <= j < i implies #[trigger] members_view(members@)[j] == string_members(es.take(i as int + 1))[j] by {
            assert(members@[j] == before[j]);
            assert(members_view(before)[j] == string_members(es.take(i as int))[j]);
        }
        assert(members_view(members@) =~= string_members(es.take(i as int + 1)));
        i = i + 1;
    }
    assert(es.take(entries.len() as int) =~= es);
    icon_from_sizes(&members)
}

/// The text of a field, or `default` when the field gives none.
pub open spec fn or_text(o: Option<Seq<char>>, default: Seq<char>) -> Seq<char> {
    match o {
        Some(s) => s,
        None => default,
    }
}

/// A text, or `default`.
fn text_or(o: Option<String>, default: &str) -> (r: String)
    ensures
        r@ == or_text(opt_view(o), default@),
{
    match o {
        Some(s) => s,
        None => owned(default),
    }
}

/// A descriptor from the fields a manifest gives: mod id (`"unknown"` if
/// missing), name (the mod id if missing), version (`"?"` if missing), the
/// loader, and the icon path.
pub open spec fn desc_from_fields(
    id: Option<Seq<char>>,
    name: Option<Seq<char>>,
    version: Option<Seq<char>>,
    loader: ModLoader,
    icon: Option<Seq<char>>,
) -> DescView {
    let mod_id = or_text(id, "unknown"@);
    (mod_id, or_text(name, mod_id), or_text(version, "?"@), loader, icon)
}

/// Builds a descriptor from the fields a manifest gives, with the defaults
/// of `desc_from_fields`.
pub fn descriptor_from_fields(
    mod_id: Option<String>,
    name: Option<String>,
    version: Option<String>,
    loader: ModLoader,
    icon_path_in_jar: Option<String>,
) -> (r: ModDescriptor)
    ensures
        desc_view(r) == desc_from_fields(opt_view(mod_id), opt_view(name), opt_view(version), loader, opt_view(icon_path_in_jar)),
{
    let mod_id = text_or(mod_id, "unknown");
    let name = match name {
        Some(n) => n,
        None => mod_id.clone(),
    };
    let version = text_or(version, "?");
    ModDescriptor { mod_id, name, version, loader, icon_path_in_jar }
}

/// What a Fabric manifest (`fabric.mod.json`) says of its mod: `id`
/// (`"unknown"` if missing), `name` (the id if missing), `version` (`"?"`
/// if missing), `icon`.
pub open spec fn fabric_desc(text: Seq<char>) -> DescView {
    desc_from_fields(
        json_str_at(text, seq!["id"@]),
        json_str_at(text, seq!["name"@]),
        json_str_at(text, seq!["version"@]),
        ModLoader::Fabric,
        match json_member_text(text, "icon"@) {
            Some(t) => icon_of(t),
            None => None,
        },
    )
}

/// Reads a Fabric manifest.
pub fn parse_fabric(text: &str) -> (r: ModDescriptor)
    ensures
        desc_view(r) == fabric_desc(text@),
        icon_read_from(json_member_text(text@, "icon"@), opt_view(r.icon_path_in_jar)),
{
    proof {
        lemma_fabric_icon(text@);
    }
    let id_path = ["id"];
    let name_path = ["name"];
    let version_path = ["version"];
    assert(path_view(id_path@) =~= seq!["id"@]);
    assert(path_view(name_path@) =~= seq!["name"@]);
    assert(path_view(version_path@) =~= seq!["version"@]);
    let icon = match json_member(text, "icon") {
        Some(t) => icon_from_json(t.as_str()),
        None => None,
    };
    descriptor_from_fields(
        str_at(text, &id_path),
        str_at(text, &name_path),
        str_at(text, &version_path),
        ModLoader::Fabric,
        icon,
    )
}

/// What a Quilt manifest (`quilt.mod.json`) says of its mod, under
/// `quilt_loader`: `id`, `metadata.name`, `version`, `metadata.icon`, with
/// the defaults of a Fabric manifest.
pub open spec fn quilt_desc(text: Seq<char>) -> DescView {
    let loader = json_member_text(text, "quilt_loader"@);
    let field = |path: Seq<Seq<char>>|
        match loader {
            Some(l) => json_str_at(l, path),
            None => None,
        };
    desc_from_fields(
        field(seq!["id"@]),
        field(seq!["metadata"@, "name"@]),
        field(seq!["version"@]),
        ModLoader::Quilt,
        match loader {
            Some(l) => match json_at(l, seq!["metadata"@, "icon"@]) {
                Some(t) => icon_of(t),
                None => None,
            },
            None => None,
        },
    )
}

/// Reads a Quilt manifest.
pub fn parse_quilt(text: &str) -> (r: ModDescriptor)
    ensures
        desc_view(r) == quilt_desc(text@),
        icon_read_from(
            match json_member_text(text@, "quilt_loader"@) {
                Some(l) => json_at(l, seq!["metadata"@, "icon"@]),
                None => None,
            },
            opt_view(r.icon_path_in_jar),
        ),
{
    proof {
        lemma_quilt_icon(text@);
    }
    let id_path = ["id"];
    let name_path = ["metadata", "name"];
    let version_path = ["version"];
    assert(path_view(id_path@) =~= seq!["id"@]);
    assert(path_view(name_path@) =~= seq!["metadata"@, "name"@]);
    assert(path_view(version_path@) =~= seq!["version"@]);
    let loader = json_member(text, "quilt_loader");
    let (mod_id, name, version, icon_path_in_jar) = match &loader {
        Some(l) => {
            let mod_id = str_at(l.as_str(), &id_path);
            let name = str_at(l.as_str(), &name_path);
            let version = str_at(l.as_str(), &version_path);
            let icon = match json_member(l.as_str(), "metadata") {
                Some(m) => match json_member(m.as_str(), "icon") {
                    Some(t) => icon_from_json(t.as_str()),
                    None => None,
                },
                None => None,
            };
            proof {
                reveal_with_fuel(json_at, 3);
                assert(seq!["metadata"@, "icon"@].subrange(1, 2) =~= seq!["icon"@]);
                assert(seq!["icon"@].subrange(1, 1) =~= Seq::<Seq<char>>::empty());
            }
            (mod_id, name, version, icon)
        },
        None => (None, None, None, None),
    };
    descriptor_from_fields(mod_id, name, version, ModLoader::Quilt, icon_path_in_jar)
}

} // verus!

verus! {

/// What a Forge-style manifest says of its mods, given the fields of its
/// `[[mods]]` tables: `modId`, `displayName`, `version`, `logoFile`, with the
/// defaults of `desc_from_fields`.
pub open spec fn descs_of_tables(
    fs: Seq<(Option<Seq<char>>, Option<Seq<char>>, Option<Seq<char>>, Option<Seq<char>>)>,
    loader: ModLoader,
) -> Seq<DescView> {
    Seq::new(fs.len(), |i: int| desc_from_fields(fs[i].0, fs[i].1, fs[i].2, loader, fs[i].3))
}

/// What a Forge or NeoForge manifest (`mods.toml`) says of its mods, in order.
pub open spec fn forge_descs(text: Seq<char>, loader: ModLoader) -> Seq<DescView> {
    descs_of_tables(toml_mod_fields(text), loader)
}

/// One descriptor per `[[mods]]` table, from the fields of the tables.
pub fn forge_descriptors(tables: &Vec<ModFields>, loader: ModLoader) -> (r: Vec<ModDescriptor>)
    ensures
        desc_views(r@) == descs_of_tables(fields_view(tables@), loader),
{
    let ghost fs = fields_view(tables@);
    let mut r: Vec<ModDescriptor> = Vec::new();
    let mut i: usize = 0;
    while i < tables.len()
        invariant
            i <= tables.len(),
            fs == fields_view(tables@),
            r@.len() == i,
            forall|j: int| 0 <= j < i ==> #[trigger] desc_view(r@[j]) == descs_of_tables(fs, loader)[j],
        decreases tables.len() - i,
    {
        let t = &tables[i];
        r.push(descriptor_from_fields(clone_opt(&t.0), clone_opt(&t.1), clone_opt(&t.2), loader, clone_opt(&t.3)));
        i = i + 1;
    }
    assert(desc_views(r@) =~= descs_of_tables(fs, loader));
    r
}

/// Reads a Forge or NeoForge manifest: one descriptor per `[[mods]]` table.
pub fn parse_forge_like(text: &str, loader: ModLoader) -> (r: Vec<ModDescriptor>)
    ensures
        desc_views(r@) == forge_descs(text@, loader),
{
    let tables = toml_mods(text);
    forge_descriptors(&tables, loader)
}

/// The path that one entry of a `jars` array declares: the string itself,
/// or the string member `file` of an object.
pub open spec fn declared_jar_entry(e: Seq<char>) -> Option<Seq<char>> {
    match json_string_value(e) {
        Some(s) => Some(s),
        None => match json_member_text(e, "file"@) {
            Some(f) => json_string_value(f),
            None => None,
        },
    }
}

/// The declared paths, in order, that end with `.jar` in any case (an entry
/// that declares no path is skipped).
pub open spec fn declared_from(items: Seq<Option<Seq<char>>>) -> Seq<Seq<char>>
    decreases items.len(),
{
    if items.len() == 0 {
        Seq::empty()
    } else {
        let prev = declared_from(items.drop_last());
        match items.last() {
            Some(p) => if ends_with(ascii_lower(p), jar_suffix()) {
                prev.push(p)
            } else {
                prev
            },
            None => prev,
        }
    }
}

/// The path that each entry of a `jars` array declares.
pub open spec fn declared_entries(a: Seq<Seq<char>>) -> Seq<Option<Seq<char>>> {
    Seq::new(a.len(), |i: int| declared_jar_entry(a[i]))
}

/// The nested jars that a Fabric or Quilt manifest declares in `jars`.
pub open spec fn declared_jars(text: Seq<char>) -> Seq<Seq<char>> {
    match json_member_text(text, "jars"@) {
        Some(j) => match json_array_texts(j) {
            Some(a) => declared_from(declared_entries(a)),
            None => Seq::empty(),
        },
        None => Seq::empty(),
    }
}

/// The views of optional texts.
pub open spec fn opt_views(v: Seq<Option<String>>) -> Seq<Option<Seq<char>>> {
    Seq::new(v.len(), |i: int| opt_view(v[i]))
}

/// Keeps, in order, the declared paths that end with `.jar` in any case.
pub fn jar_paths(entries: &Vec<Option<String>>) -> (r: Vec<String>)
    ensures
        texts_of(r@) == declared_from(opt_views(entries@)),
{
    let ghost its = opt_views(entries@);
    let jar = jar_chars();
    let mut r: Vec<String> = Vec::new();
    let mut i: usize = 0;
    while i < entries.len()
        invariant
            i <= entries.len(),
            its == opt_views(entries@),
            jar@ == jar_suffix(),
            texts_of(r@) == declared_from(its.take(i as int)),
        decreases entries.len() - i,
    {
        assert(its.take(i as int + 1).drop_last() =~= its.take(i as int));
        assert(its.take(i as int + 1).last() == opt_view(entries@[i as int]));
        match &entries[i] {
            Some(p) => {
                let lower = to_ascii_lower(chars_of(p.as_str()).as_slice());
                if text_ends_with(lower.as_slice(), jar.as_slice()) {
                    let ghost before = r@;
                    r.push(p.clone());
                    assert(texts_of(r@) =~= texts_of(before).push(p@));
                }
            },
            None => {},
        }
        i = i + 1;
    }
    assert(its.take(entries.len() as int) =~= its);
    r
}

/// Reads the nested jars that a Fabric or Quilt manifest declares.
pub fn parse_declared_jars(text: &str) -> (r: Vec<String>)
    ensures
        texts_of(r@) == declared_jars(text@),
{
    let items = match json_member(text, "jars") {
        Some(j) => match json_array(j.as_str()) {
            Some(a) => a,
            None => {
                let r: Vec<String> = Vec::new();
                assert(texts_of(r@) =~= declared_jars(text@));
                return r;
            },
        },
        None => {
            let r: Vec<String> = Vec::new();
            assert(texts_of(r@) =~= declared_jars(text@));
            return r;
        },
    };
    let ghost its = texts_of(items@);
    let mut entries: Vec<Option<String>> = Vec::new();
    let mut i: usize = 0;
    while i < items.len()
        invariant
            i <= items.len(),
            its == texts_of(items@),
            entries@.len() == i,
            forall|j: int| 0 <= j < i ==> opt_view(#[trigger] entries@[j]) == declared_jar_entry(its[j]),
        decreases items.len() - i,
    {
        let e = items[i].as_str();
        let declared = match json_string(e) {
            Some(s) => Some(s),
            None => match json_member(e, "file") {
                Some(f) => json_string(f.as_str()),
                None => None,
            },
        };
        entries.push(declared);
        i = i + 1;
    }
    assert(opt_views(entries@) =~= declared_entries(its));
    jar_paths(&entries)
}

/// The folder of nested jars of Fabric, in lower case.
pub open spec fn jars_dir() -> Seq<char> {
    seq!['m', 'e', 't', 'a', '-', 'i', 'n', 'f', '/', 'j', 'a', 'r', 's', '/']
}

/// The folder of nested jars of Forge's JarJar, in lower case.
pub open spec fn jarjar_dir() -> Seq<char> {
    seq!['m', 'e', 't', 'a', '-', 'i', 'n', 'f', '/', 'j', 'a', 'r', 'j', 'a', 'r', '/']
}

/// An entry name, with `\` written `/`, names a nested jar when in lower
/// case it ends with `.jar` and lies under `meta-inf/jars/` or `meta-inf/jarjar/`.
pub open spec fn is_nested_jar(r: Seq<char>) -> bool {
    let l = ascii_lower(r);
    ends_with(l, jar_suffix()) && (starts_with(l, jars_dir()) || starts_with(l, jarjar_dir()))
}

/// The nested jars among the entry names, in order, with `\` written `/`.
pub open spec fn nested_from(names: Seq<Option<Seq<char>>>) -> Seq<Seq<char>>
    decreases names.len(),
{
    if names.len() == 0 {
        Seq::empty()
    } else {
        let prev = nested_from(names.drop_last());
        match names.last() {
            Some(n) => if is_nested_jar(replace_char(n, '\\', '/')) {
                prev.push(replace_char(n, '\\', '/'))
            } else {
                prev
            },
            None => prev,
        }
    }
}

/// The nested jars that an archive holds under `META-INF/jars/` or `META-INF/jarjar/`.
pub fn archive_nested_jar_paths(archive: &mut JarArchive) -> (r: Vec<String>)
    ensures
        archive_names(*final(archive)) == archive_names(*old(archive)),
        archive_data(*final(archive)) == archive_data(*old(archive)),
        texts_of(r@) == nested_from(archive_names(*old(archive))),
{
    let ghost names = archive_names(*archive);
    let ghost data = archive_data(*archive);
    let n = archive_len(archive);
    let jar = jar_chars();
    let jars = vec!['m', 'e', 't', 'a', '-', 'i', 'n', 'f', '/', 'j', 'a', 'r', 's', '/'];
    let jarjar = vec!['m', 'e', 't', 'a', '-', 'i', 'n', 'f', '/', 'j', 'a', 'r', 'j', 'a', 'r', '/'];
    assert(jars@ =~= jars_dir());
    assert(jarjar@ =~= jarjar_dir());
    let mut r: Vec<String> = Vec::new();
    let mut i: usize = 0;
    while i < n
        invariant
            n == names.len(),
            i <= n,
            archive_names(*archive) == names,
            archive_data(*archive) == data,
            jar@ == jar_suffix(),
            jars@ == jars_dir(),
            jarjar@ == jarjar_dir(),
            texts_of(r@) == nested_from(names.take(i as int)),
        decreases n - i,
    {
        assert(names.take(i as int + 1).drop_last() =~= names.take(i as int));
        match archive_entry_name(archive, i) {
            Some(name) => {
                let replaced = replace_chars(chars_of(name.as_str()).as_slice(), '\\', '/');
                let lower = to_ascii_lower(replaced.as_slice());
                if text_ends_with(lower.as_slice(), jar.as_slice()) && (text_starts_with(
                    lower.as_slice(),
                    jars.as_slice(),
                ) || text_starts_with(lower.as_slice(), jarjar.as_slice())) {
                    let ghost before = r@;
                    r.push(string_of(replaced.as_slice()));
                    assert(texts_of(r@) =~= texts_of(before).push(replaced@));
                }
            },
            None => {},
        }
        i = i + 1;
    }
    assert(names.take(n as int) =~= names);
    r
}

} // verus!

verus! {

/// The key by which packaged descriptors are told apart: loader, mod id in
/// ASCII lower case, and version, joined by U+001F.
pub open spec fn dedupe_key(d: DescView) -> Seq<char> {
    loader_name(d.3) + seq!['\u{1f}'] + ascii_lower(d.0) + seq!['\u{1f}'] + d.2
}

/// The descriptors whose key no earlier descriptor has, in order.
pub open spec fn dedupe(ds: Seq<DescView>) -> Seq<DescView>
    decreases ds.len(),
{
    if ds.len() == 0 {
        Seq::empty()
    } else {
        let prev = dedupe(ds.drop_last());
        if exists|j: int| 0 <= j < ds.len() - 1 && dedupe_key(#[trigger] ds[j]) == dedupe_key(ds.last()) {
            prev
        } else {
            prev.push(ds.last())
        }
    }
}

/// The key of a descriptor, as characters.
fn key_of(d: &ModDescriptor) -> (r: Vec<char>)
    ensures
        r@ == dedupe_key(desc_view(*d)),
{
    let sep = vec!['\u{1f}'];
    let a = concat(d.loader.name_chars().as_slice(), sep.as_slice());
    let b = concat(a.as_slice(), to_ascii_lower(chars_of(d.mod_id.as_str()).as_slice()).as_slice());
    let c = concat(b.as_slice(), sep.as_slice());
    let k = concat(c.as_slice(), chars_of(d.version.as_str()).as_slice());
    assert(k@ =~= dedupe_key(desc_view(*d)));
    k
}

/// Keeps the first of the descriptors that share a key, in order.
pub fn dedupe_descriptors(descriptors: Vec<ModDescriptor>) -> (r: Vec<ModDescriptor>)
    ensures
        desc_views(r@) == dedupe(desc_views(descriptors@)),
{
    let ghost all = desc_views(descriptors@);
    let mut keys: Vec<Vec<char>> = Vec::new();
    let mut r: Vec<ModDescriptor> = Vec::new();
    let mut i: usize = 0;
    while i < descriptors.len()
        invariant
            i <= descriptors.len(),
            all == desc_views(descriptors@),
            keys@.len() == i,
            forall|j: int| 0 <= j < i ==> #[trigger] keys@[j]@ == dedupe_key(all[j]),
            desc_views(r@) == dedupe(all.take(i as int)),
        decreases descriptors.len() - i,
    {
        let k = key_of(&descriptors[i]);
        let mut seen = false;
        let mut j: usize = 0;
        while j < i
            invariant
                i < descriptors.len(),
                j <= i,
                keys@.len() == i,
                all == desc_views(descriptors@),
                k@ == dedupe_key(all[i as int]),
                forall|x: int| 0 <= x < i ==> #[trigger] keys@[x]@ == dedupe_key(all[x]),
                seen == exists|x: int| 0 <= x < j && dedupe_key(#[trigger] all[x]) == k@,
            decreases i - j,
        {
            if text_eq(keys[j].as_slice(), k.as_slice()) {
                seen = true;
            }
            j = j + 1;
        }
        let ghost t = all.take(i as int + 1);
        assert(t.drop_last() =~= all.take(i as int));
        assert(t.last() == all[i as int]);
        assert(seen == exists|x: int| 0 <= x < t.len() - 1 && dedupe_key(#[trigger] t[x]) == dedupe_key(t.last())) by {
            if seen {
                let x = choose|x: int| 0 <= x < i && dedupe_key(#[trigger] all[x]) == k@;
                assert(t[x] == all[x]);
            }
            if exists|x: int| 0 <= x < t.len() - 1 && dedupe_key(#[trigger] t[x]) == dedupe_key(t.last()) {
                let x = choose|x: int| 0 <= x < t.len() - 1 && dedupe_key(#[trigger] t[x]) == dedupe_key(t.last());
                assert(all[x] == t[x]);
            }
        }
        if !seen {
            let ghost before = r@;
            r.push(descriptors[i].clone());
            assert(desc_views(r@) =~= desc_views(before).push(all[i as int]));
        }
        keys.push(k);
        i = i + 1;
    }
    assert(all.take(descriptors.len() as int) =~= all);
    r
}

/// The keys that order paths as `String` does.
pub open spec fn path_keys(ps: Seq<Seq<char>>) -> Seq<KeyView> {
    Seq::new(ps.len(), |i: int| (None, 0i64, ps[i]))
}

/// The paths with every run of equal neighbours kept once, as `Vec::dedup` does.
pub open spec fn dedup_adjacent(ps: Seq<Seq<char>>) -> Seq<Seq<char>>
    decreases ps.len(),
{
    if ps.len() == 0 {
        Seq::empty()
    } else {
        let prev = dedup_adjacent(ps.drop_last());
        if ps.len() >= 2 && ps[ps.len() - 2] == ps.last() {
            prev
        } else {
            prev.push(ps.last())
        }
    }
}

/// The paths sorted as `String`s are, each once.
pub open spec fn sorted_unique(ps: Seq<Seq<char>>) -> Seq<Seq<char>> {
    dedup_adjacent(sorted_paths(ps))
}

/// The paths sorted as `String`s are.
pub open spec fn sorted_paths(ps: Seq<Seq<char>>) -> Seq<Seq<char>> {
    stable_sorted(ps, path_keys(ps))
}

/// Sorts paths as `Vec::sort` does: in the order of `String`, which for the
/// paths of one folder is the order of their file names.
pub fn sort_paths(paths: Vec<String>) -> (r: Vec<String>)
    ensures
        texts_of(r@) == sorted_paths(texts_of(paths@)),
{
    let ghost pv = texts_of(paths@);
    let mut keys: Vec<SortKey> = Vec::new();
    let mut i: usize = 0;
    while i < paths.len()
        invariant
            i <= paths.len(),
            pv == texts_of(paths@),
            keys@.len() == i,
            forall|j: int| 0 <= j < i ==> #[trigger] keys@[j].view_key() == path_keys(pv)[j],
        decreases paths.len() - i,
    {
        keys.push(SortKey { group: None, index: 0, name: chars_of(paths[i].as_str()) });
        assert(keys@[i as int].view_key() =~= path_keys(pv)[i as int]);
        i = i + 1;
    }
    assert(key_views(keys@) =~= path_keys(pv));
    let ranks = stable_ranks(&keys);
    let ghost orig = paths@;
    let sorted = place_by_rank(paths, &ranks, Ghost(path_keys(pv)));
    let ghost sv = texts_of(sorted@);
    assert(sv =~= stable_sorted(pv, path_keys(pv))) by {
        assert forall|x: int| 0 <= x < sv.len() implies sv[x] == stable_sorted(pv, path_keys(pv))[x] by {
            crate::order::lemma_rank_onto(path_keys(pv), x);
            let c = choose|c: int| 0 <= c < path_keys(pv).len() && crate::order::rank(path_keys(pv), c) == x;
            assert(sorted@[x] == orig[c]);
            assert(stable_sorted(pv, path_keys(pv))[x] == pv[c]);
        }
    }
    sorted
}

/// Sorts paths as `Vec::sort` does and keeps each once, as `Vec::dedup` does.
pub fn sort_dedup_paths(paths: Vec<String>) -> (r: Vec<String>)
    ensures
        texts_of(r@) == sorted_unique(texts_of(paths@)),
{
    let sorted = sort_paths(paths);
    let ghost sv = texts_of(sorted@);
    let mut r: Vec<String> = Vec::new();
    let mut k: usize = 0;
    while k < sorted.len()
        invariant
            k <= sorted.len(),
            sv == texts_of(sorted@),
            texts_of(r@) == dedup_adjacent(sv.take(k as int)),
        decreases sorted.len() - k,
    {
        assert(sv.take(k as int + 1).drop_last() =~= sv.take(k as int));
        let dup = k >= 1 && sorted[k - 1] == sorted[k];
        if !dup {
            let ghost before = r@;
            r.push(sorted[k].clone());
            assert(texts_of(r@) =~= texts_of(before).push(sv[k as int]));
        }
        k = k + 1;
    }
    assert(sv.take(sorted.len() as int) =~= sv);
    r
}

} // verus!

verus! {

/// The text of entry `name`, when it can be read and is UTF-8.
pub open spec fn text_entry(data: Map<Seq<char>, Seq<u8>>, name: Seq<char>) -> Option<Seq<char>> {
    if data.contains_key(name) && vstd::utf8::valid_utf8(data[name]) {
        Some(vstd::utf8::decode_utf8(data[name]))
    } else {
        None
    }
}

/// The descriptors of the first manifest an archive has, and the nested jars
/// it declares: `fabric.mod.json`, else `quilt.mod.json`, else
/// `META-INF/neoforge.mods.toml`, else `META-INF/mods.toml`.
pub open spec fn manifest_of(data: Map<Seq<char>, Seq<u8>>) -> (Seq<DescView>, Seq<Seq<char>>) {
    match text_entry(data, "fabric.mod.json"@) {
        Some(t) => (seq![fabric_desc(t)], declared_jars(t)),
        None => match text_entry(data, "quilt.mod.json"@) {
            Some(t) => (seq![quilt_desc(t)], declared_jars(t)),
            None => match text_entry(data, "META-INF/neoforge.mods.toml"@) {
                Some(t) => (forge_descs(t, ModLoader::NeoForge), Seq::empty()),
                None => match text_entry(data, "META-INF/mods.toml"@) {
                    Some(t) => (forge_descs(t, ModLoader::Forge), Seq::empty()),
                    None => (Seq::empty(), Seq::empty()),
                },
            },
        },
    }
}

/// The mods an archive holds at nesting depth `depth`: those of its
/// manifest, then, above depth 3, those of each nested jar (declared or
/// under the nested-jar folders, sorted, each once) that opens as an
/// archive; the first descriptor of each key kept. Nothing beyond depth 3.
pub open spec fn archive_descs(names: Seq<Option<Seq<char>>>, data: Map<Seq<char>, Seq<u8>>, depth: int) -> Seq<DescView>
    decreases 4 - depth, 1int, 0int,
{
    if depth > 3 || depth < 0 {
        Seq::empty()
    } else {
        let primary = manifest_of(data).0;
        let nested = if depth < 3 {
            sorted_unique(manifest_of(data).1 + nested_from(names))
        } else {
            Seq::empty()
        };
        dedupe(primary + nested_descs(nested, data, depth))
    }
}

/// The mods of the nested jars `paths` of an archive at depth `depth`, in order.
pub open spec fn nested_descs(paths: Seq<Seq<char>>, data: Map<Seq<char>, Seq<u8>>, depth: int) -> Seq<DescView>
    decreases 4 - depth, 0int, paths.len(),
{
    if depth >= 3 || depth < 0 || paths.len() == 0 {
        Seq::empty()
    } else {
        let prev = nested_descs(paths.drop_last(), data, depth);
        let more = if data.contains_key(paths.last()) {
            match zip_contents(data[paths.last()]) {
                Some(c) => archive_descs(c.0, c.1, depth + 1),
                None => Seq::empty(),
            }
        } else {
            Seq::empty()
        };
        prev + more
    }
}

/// The text of entry `name` of an archive, when it reads and is UTF-8.
pub fn read_text(archive: &mut JarArchive, name: &str) -> (r: Option<String>)
    ensures
        archive_names(*final(archive)) == archive_names(*old(archive)),
        archive_data(*final(archive)) == archive_data(*old(archive)),
        opt_view(r) == text_entry(archive_data(*old(archive)), name@),
{
    match archive_read(archive, name) {
        Some(bytes) => utf8_text(bytes),
        None => None,
    }
}

/// The content of entry `name` of an archive, when it reads.
pub fn read_bytes(archive: &mut JarArchive, name: &str) -> (r: Option<Vec<u8>>)
    ensures
        archive_names(*final(archive)) == archive_names(*old(archive)),
        archive_data(*final(archive)) == archive_data(*old(archive)),
        match r {
            Some(v) => archive_data(*old(archive)).contains_key(name@) && archive_data(*old(archive))[name@] == v@,
            None => !archive_data(*old(archive)).contains_key(name@),
        },
{
    archive_read(archive, name)
}

/// The mods an archive holds at nesting depth `depth` (see `archive_descs`).
pub fn scan_archive_descriptors(archive: &mut JarArchive, depth: usize) -> (r: Vec<ModDescriptor>)
    ensures
        archive_names(*final(archive)) == archive_names(*old(archive)),
        archive_data(*final(archive)) == archive_data(*old(archive)),
        desc_views(r@) == archive_descs(archive_names(*old(archive)), archive_data(*old(archive)), depth as int),
    decreases 4 - depth,
{
    let ghost names = archive_names(*archive);
    let ghost data = archive_data(*archive);
    if depth > 3 {
        let empty: Vec<ModDescriptor> = Vec::new();
        assert(desc_views(empty@) =~= Seq::<DescView>::empty());
        return empty;
    }
    let mut descriptors: Vec<ModDescriptor> = Vec::new();
    let mut declared: Vec<String> = Vec::new();
    match read_text(archive, "fabric.mod.json") {
        Some(t) => {
            descriptors.push(parse_fabric(t.as_str()));
            declared = parse_declared_jars(t.as_str());
        },
        None => match read_text(archive, "quilt.mod.json") {
            Some(t) => {
                descriptors.push(parse_quilt(t.as_str()));
                declared = parse_declared_jars(t.as_str());
            },
            None => match read_text(archive, "META-INF/neoforge.mods.toml") {
                Some(t) => {
                    descriptors = parse_forge_like(t.as_str(), ModLoader::NeoForge);
                },
                None => match read_text(archive, "META-INF/mods.toml") {
                    Some(t) => {
                        descriptors = parse_forge_like(t.as_str(), ModLoader::Forge);
                    },
                    None => {},
                },
            },
        },
    }
    assert(desc_views(descriptors@) =~= manifest_of(data).0);
    assert(texts_of(declared@) =~= manifest_of(data).1);
    if depth < 3 {
        let mut nested_paths = declared;
        let mut found = archive_nested_jar_paths(archive);
        let ghost declared_v = texts_of(nested_paths@);
        nested_paths.append(&mut found);
        assert(texts_of(nested_paths@) =~= manifest_of(data).1 + nested_from(names));
        let nested = sort_dedup_paths(nested_paths);
        let ghost nv = texts_of(nested@);
        let ghost primary = desc_views(descriptors@);
        let mut i: usize = 0;
        while i < nested.len()
            invariant
                depth < 3,
                i <= nested.len(),
                nv == texts_of(nested@),
                archive_names(*archive) == names,
                archive_data(*archive) == data,
                desc_views(descriptors@) == primary + nested_descs(nv.take(i as int), data, depth as int),
            decreases nested.len() - i,
        {
            assert(nv.take(i as int + 1).drop_last() =~= nv.take(i as int));
            let ghost before = desc_views(descriptors@);
            match read_bytes(archive, nested[i].as_str()) {
                Some(bytes) => match open_archive(bytes) {
                    Ok(mut inner) => {
                        let mut more = scan_archive_descriptors(&mut inner, depth + 1);
                        let ghost mv = desc_views(more@);
                        descriptors.append(&mut more);
                        assert(desc_views(descriptors@) =~= before + mv);
                    },
                    Err(_) => {
                        assert(nested_descs(nv.take(i as int + 1), data, depth as int) =~= nested_descs(nv.take(i as int), data, depth as int));
                    },
                },
                None => {
                    assert(nested_descs(nv.take(i as int + 1), data, depth as int) =~= nested_descs(nv.take(i as int), data, depth as int));
                },
            }
            i = i + 1;
        }
        assert(nv.take(nested.len() as int) =~= nv);
    } else {
        assert(nested_descs(Seq::empty(), data, depth as int) =~= Seq::<DescView>::empty());
        assert(desc_views(descriptors@) + Seq::<DescView>::empty() =~= desc_views(descriptors@));
    }
    dedupe_descriptors(descriptors)
}

} // verus!

verus! {

/// The descriptor of a mod file whose archive names no mod: its file name
/// without `.disabled` and `.jar`, version `"?"`, unknown loader.
pub open spec fn default_desc(file_name: Seq<char>) -> DescView {
    (bare_name(file_name), bare_name(file_name), "?"@, ModLoader::Unknown, None)
}

/// The icon of a mod as a `data:` URL of its bytes in base64, when the
/// descriptor names an icon that the archive holds.
pub open spec fn icon_url(icon: Option<Seq<char>>, data: Map<Seq<char>, Seq<u8>>) -> Option<Seq<char>> {
    match icon {
        Some(p) => if data.contains_key(p) {
            Some("data:"@ + icon_mime(Some(p)) + ";base64,"@ + base64_standard(data[p]))
        } else {
            None
        },
        None => None,
    }
}

/// The key under which the layout of a mod is kept: its loader, `:`, its mod id.
pub open spec fn layout_key_of(d: DescView) -> Seq<char> {
    loader_name(d.3) + seq![':'] + d.0
}

/// `a` is the artifact of the mod file at `path`, named `file_name`, whose
/// archive holds the entries `names` and contents `data`: its id derives from
/// the path without `.disabled`, its descriptor is the first mod the archive
/// holds (or the default one), and it is switched on when the path ends with `.jar`.
pub open spec fn scanned_as(
    a: ModArtifact,
    path: Seq<char>,
    file_name: Seq<char>,
    names: Seq<Option<Seq<char>>>,
    data: Map<Seq<char>, Seq<u8>>,
) -> bool {
    let descs = archive_descs(names, data, 0);
    let desc = if descs.len() == 0 {
        default_desc(file_name)
    } else {
        descs[0]
    };
    &&& a.id@ == uuid_v5_url(stable_path(path))
    &&& a.layout_key@ == layout_key_of(desc)
    &&& desc_view(a.descriptor) == desc
    &&& desc_views(a.packaged_mods@) == (if descs.len() == 0 {
        seq![desc]
    } else {
        descs
    })
    &&& a.enabled == ends_with(path, jar_suffix())
    &&& a.file_name@ == file_name
    &&& a.path@ == path
    &&& opt_view(a.icon_data_url) == icon_url(desc.4, data)
}

impl JarScanner {
    /// The artifact of the mod file at `path` (its path as text), with file
    /// name `file_name` (`None` when the path has none that is UTF-8), from the
    /// bytes of the file. Refused when the bytes are no zip archive.
    pub fn scan_file(path: &str, file_name: Option<String>, bytes: Vec<u8>) -> (r: Result<ModArtifact, ScanError>)
        ensures
            zip_contents(bytes@) is None ==> r matches Err(ScanError::Zip(_)),
            zip_contents(bytes@) matches Some(c) ==> (r matches Ok(a) && scanned_as(
                a,
                path@,
                or_text(opt_view(file_name), "unknown.jar"@),
                c.0,
                c.1,
            )),
    {
        let enabled = text_ends_with(chars_of(path).as_slice(), jar_chars().as_slice());
        let file_name = text_or(file_name, "unknown.jar");
        let stable = strip_disabled(path);
        let artifact_id = stable_uuid(stable.as_str());
        let ghost contents = zip_contents(bytes@);
        let mut archive = match open_archive(bytes) {
            Ok(a) => a,
            Err(e) => {
                return Err(ScanError::Zip(e));
            },
        };
        let ghost names = archive_names(archive);
        let ghost data = archive_data(archive);
        let mut packaged_mods = scan_archive_descriptors(&mut archive, 0);
        let ghost descs = desc_views(packaged_mods@);
        let descriptor = if packaged_mods.len() == 0 {
            let bare = strip_jar_suffix(file_name.as_str());
            ModDescriptor {
                mod_id: bare.clone(),
                name: bare,
                version: owned("?"),
                loader: ModLoader::Unknown,
                icon_path_in_jar: None,
            }
        } else {
            packaged_mods[0].clone()
        };
        if packaged_mods.len() == 0 {
            packaged_mods.push(descriptor.clone());
            assert(desc_views(packaged_mods@) =~= seq![desc_view(descriptor)]);
        }
        let icon_data_url = match &descriptor.icon_path_in_jar {
            Some(icon_path) => match read_bytes(&mut archive, icon_path.as_str()) {
                Some(icon_bytes) => {
                    let mime = mime_for_icon(Some(icon_path.as_str()));
                    let encoded = base64_encode(icon_bytes.as_slice());
                    let a = concat(chars_of("data:").as_slice(), chars_of(mime).as_slice());
                    let b = concat(a.as_slice(), chars_of(";base64,").as_slice());
                    let c = concat(b.as_slice(), chars_of(encoded.as_str()).as_slice());
                    Some(string_of(c.as_slice()))
                },
                None => None,
            },
            None => None,
        };
        let colon = vec![':'];
        assert(colon@ =~= seq![':']);
        let key = concat(
            concat(descriptor.loader.name_chars().as_slice(), colon.as_slice()).as_slice(),
            chars_of(descriptor.mod_id.as_str()).as_slice(),
        );
        let layout_key = string_of(key.as_slice());
        let artifact = ModArtifact {
            id: artifact_id,
            layout_key,
            descriptor,
            packaged_mods,
            enabled,
            file_name,
            path: owned(path),
            icon_data_url,
        };
        Ok(artifact)
    }
}

} // verus!

verus! {

/// A mod file keeps its stable path, and so its artifact id and its place in
/// the layout, when it is switched on or off.
pub proof fn lemma_toggle_keeps_identity(p: Seq<char>, enabled: bool)
    requires
        ends_with(p, jar_suffix()) || ends_with(p, disabled_jar_suffix()),
    ensures
        stable_path(toggled(p, enabled)) == stable_path(p),
{
    let d = disabled_suffix();
    let n = p.len();
    if ends_with(p, jar_suffix()) {
        assert(!ends_with(p, d)) by {
            if ends_with(p, d) {
                assert(p.subrange(n - 4, n as int)[3] == p[n - 1]);
                assert(p.subrange(n - 9, n as int)[8] == p[n - 1]);
            }
        }
        if !enabled {
            let q = p + d;
            assert(q.subrange(q.len() - d.len(), q.len() as int) =~= d);
            assert(q.subrange(0, q.len() - d.len()) =~= p);
        }
    } else {
        let jd = disabled_jar_suffix();
        assert(p.subrange(n - jd.len(), n as int) == jd);
        assert(p.subrange(n - d.len(), n as int) =~= jd.subrange(4, 13));
        assert(jd.subrange(4, 13) =~= d);
        let q = p.subrange(0, n - d.len());
        assert(q.subrange(q.len() - 4, q.len() as int) =~= jd.subrange(0, 4));
        assert(jd.subrange(0, 4) =~= jar_suffix());
        assert(!ends_with(q, d)) by {
            if ends_with(q, d) {
                assert(q.subrange(q.len() - 4, q.len() as int)[3] == q[q.len() - 1]);
                assert(q.subrange(q.len() - 9, q.len() as int)[8] == q[q.len() - 1]);
            }
        }
        if !enabled {
            assert(!ends_with(p, jar_suffix())) by {
                assert(p.subrange(n - 4, n as int)[3] == p[n - 1]);
                assert(jd[12] == 'd');
            }
        }
    }
}

/// Every descriptor that dedupe keeps is one of its input.
proof fn lemma_dedupe_from_input(ds: Seq<DescView>)
    ensures
        forall|j: int| 0 <= j < dedupe(ds).len() ==> exists|i: int| 0 <= i < ds.len() && #[trigger] dedupe(ds)[j] == #[trigger] ds[i],
    decreases ds.len(),
{
    if ds.len() > 0 {
        let p = ds.drop_last();
        lemma_dedupe_from_input(p);
        let dp = dedupe(p);
        let d = dedupe(ds);
        assert forall|j: int| 0 <= j < d.len() implies exists|i: int| 0 <= i < ds.len() && #[trigger] d[j] == #[trigger] ds[i] by {
            if j < dp.len() {
                assert(d[j] == dp[j]);
                let i = choose|i: int| 0 <= i < p.len() && #[trigger] dp[j] == #[trigger] p[i];
                assert(ds[i] == p[i]);
            } else {
                assert(d[j] == ds[ds.len() - 1]);
            }
        }
    }
}

/// After dedupe, no two descriptors share a key.
pub proof fn lemma_dedupe_distinct(ds: Seq<DescView>)
    ensures
        forall|i: int, j: int|
            0 <= i < j < dedupe(ds).len() ==> dedupe_key(dedupe(ds)[i]) != dedupe_key(dedupe(ds)[j]),
    decreases ds.len(),
{
    if ds.len() > 0 {
        let p = ds.drop_last();
        lemma_dedupe_distinct(p);
        lemma_dedupe_from_input(p);
        let dp = dedupe(p);
        let d = dedupe(ds);
        if !(exists|j: int| 0 <= j < ds.len() - 1 && dedupe_key(#[trigger] ds[j]) == dedupe_key(ds.last())) {
            assert(d == dp.push(ds.last()));
            assert forall|i: int, j: int| 0 <= i < j < d.len() implies dedupe_key(d[i]) != dedupe_key(d[j]) by {
                assert(d[i] == dp[i]);
                if j == d.len() - 1 {
                    let k = choose|k: int| 0 <= k < p.len() && #[trigger] dp[i] == #[trigger] p[k];
                    assert(ds[k] == p[k]);
                } else {
                    assert(d[j] == dp[j]);
                }
            }
        }
    }
}

/// Dedupe keeps every key of its input.
pub proof fn lemma_dedupe_keeps_keys(ds: Seq<DescView>)
    ensures
        forall|i: int| 0 <= i < ds.len() ==> exists|j: int| 0 <= j < dedupe(ds).len() && dedupe_key(#[trigger] dedupe(ds)[j]) == dedupe_key(#[trigger] ds[i]),
    decreases ds.len(),
{
    if ds.len() > 0 {
        let p = ds.drop_last();
        lemma_dedupe_keeps_keys(p);
        let dp = dedupe(p);
        let d = dedupe(ds);
        let dup = exists|j: int| 0 <= j < ds.len() - 1 && dedupe_key(#[trigger] ds[j]) == dedupe_key(ds.last());
        assert forall|i: int| 0 <= i < ds.len() implies exists|j: int| 0 <= j < d.len() && dedupe_key(#[trigger] d[j]) == dedupe_key(#[trigger] ds[i]) by {
            if i < ds.len() - 1 {
                assert(ds[i] == p[i]);
                let j = choose|j: int| 0 <= j < dp.len() && dedupe_key(#[trigger] dp[j]) == dedupe_key(#[trigger] p[i]);
                assert(d[j] == dp[j]);
            } else if dup {
                let w = choose|w: int| 0 <= w < ds.len() - 1 && dedupe_key(#[trigger] ds[w]) == dedupe_key(ds.last());
                assert(ds[w] == p[w]);
                let j = choose|j: int| 0 <= j < dp.len() && dedupe_key(#[trigger] dp[j]) == dedupe_key(#[trigger] p[w]);
                assert(d[j] == dp[j]);
            } else {
                assert(d[d.len() - 1] == ds[i]);
            }
        }
    }
}


/// Descriptor `i` is the first of `ds` with its key.
pub open spec fn first_occurrence(ds: Seq<DescView>, i: int) -> bool {
    forall|j: int| 0 <= j < i ==> dedupe_key(#[trigger] ds[j]) != dedupe_key(ds[i])
}

/// What dedupe keeps of a prefix is a prefix of what it keeps of the whole.
proof fn lemma_dedupe_prefix(ds: Seq<DescView>, n: int)
    requires
        0 <= n <= ds.len(),
    ensures
        dedupe(ds.take(n)).len() <= dedupe(ds).len(),
        dedupe(ds).take(dedupe(ds.take(n)).len() as int) == dedupe(ds.take(n)),
    decreases ds.len(),
{
    if n == ds.len() {
        assert(ds.take(n) =~= ds);
        assert(dedupe(ds).take(dedupe(ds).len() as int) =~= dedupe(ds));
    } else {
        let p = ds.drop_last();
        assert(ds.take(n) =~= p.take(n));
        lemma_dedupe_prefix(p, n);
        let dp = dedupe(p);
        let d = dedupe(ds);
        let m = dedupe(ds.take(n)).len() as int;
        if d != dp {
            assert(d == dp.push(ds.last()));
            assert(d.take(m) =~= dp.take(m));
        }
    }
}

/// A first occurrence is kept at the end of what dedupe keeps of the prefix up to it.
proof fn lemma_dedupe_first_step(ds: Seq<DescView>, i: int)
    requires
        0 <= i < ds.len(),
        first_occurrence(ds, i),
    ensures
        dedupe(ds.take(i + 1)) == dedupe(ds.take(i)).push(ds[i]),
{
    let t = ds.take(i + 1);
    assert(t.drop_last() =~= ds.take(i));
    assert(t.last() == ds[i]);
    assert(!exists|j: int| 0 <= j < t.len() - 1 && dedupe_key(#[trigger] t[j]) == dedupe_key(t.last())) by {
        if exists|j: int| 0 <= j < t.len() - 1 && dedupe_key(#[trigger] t[j]) == dedupe_key(t.last()) {
            let j = choose|j: int| 0 <= j < t.len() - 1 && dedupe_key(#[trigger] t[j]) == dedupe_key(t.last());
            assert(t[j] == ds[j]);
        }
    }
}

/// Dedupe keeps the first descriptor of each key where the input has it: a
/// first occurrence `i` stands at position `dedupe(ds.take(i)).len()`, and
/// of two first occurrences the earlier one comes first.
pub proof fn lemma_dedupe_keeps_order(ds: Seq<DescView>, i: int, k: int)
    requires
        0 <= i < k < ds.len(),
        first_occurrence(ds, i),
        first_occurrence(ds, k),
    ensures
        dedupe(ds.take(i)).len() < dedupe(ds.take(k)).len() < dedupe(ds).len(),
        dedupe(ds)[dedupe(ds.take(i)).len() as int] == ds[i],
        dedupe(ds)[dedupe(ds.take(k)).len() as int] == ds[k],
{
    lemma_dedupe_first_step(ds, i);
    lemma_dedupe_first_step(ds, k);
    let tk = ds.take(k);
    assert(tk.take(i + 1) =~= ds.take(i + 1));
    lemma_dedupe_prefix(tk, i + 1);
    lemma_dedupe_prefix(ds, i + 1);
    lemma_dedupe_prefix(ds, k + 1);
    let pi = dedupe(ds.take(i)).len() as int;
    let pk = dedupe(ds.take(k)).len() as int;
    assert(dedupe(ds).take(pi + 1)[pi] == ds[i]);
    assert(dedupe(ds).take(pk + 1)[pk] == ds[k]);
}

/// Dedupe of descriptors with distinct keys keeps them all.
proof fn lemma_dedupe_of_distinct(s: Seq<DescView>)
    requires
        forall|i: int, j: int| 0 <= i < j < s.len() ==> dedupe_key(s[i]) != dedupe_key(s[j]),
    ensures
        dedupe(s) == s,
    decreases s.len(),
{
    if s.len() > 0 {
        let p = s.drop_last();
        assert forall|i: int, j: int| 0 <= i < j < p.len() implies dedupe_key(p[i]) != dedupe_key(p[j]) by {
            assert(p[i] == s[i] && p[j] == s[j]);
        }
        lemma_dedupe_of_distinct(p);
        assert(!exists|j: int| 0 <= j < s.len() - 1 && dedupe_key(#[trigger] s[j]) == dedupe_key(s.last())) by {
            if exists|j: int| 0 <= j < s.len() - 1 && dedupe_key(#[trigger] s[j]) == dedupe_key(s.last()) {
                let j = choose|j: int| 0 <= j < s.len() - 1 && dedupe_key(#[trigger] s[j]) == dedupe_key(s.last());
                assert(s[s.len() - 1] == s.last());
            }
        }
        assert(p.push(s.last()) =~= s);
    }
}

/// Deduplicating twice is deduplicating once.
pub proof fn lemma_dedupe_idempotent(ds: Seq<DescView>)
    ensures
        dedupe(dedupe(ds)) == dedupe(ds),
{
    lemma_dedupe_distinct(ds);
    lemma_dedupe_of_distinct(dedupe(ds));
}


/// A member names a size and gives a path.
pub open spec fn is_icon_candidate(e: (Seq<char>, Option<Seq<char>>)) -> bool {
    parse_u32(e.0) is Some && e.1 is Some
}

/// `r` is the icon that members `es` give by size: some path whenever a
/// member names a size with a path; and a path only of such a member whose
/// size no other such member exceeds and no later one equals.
pub open spec fn icon_by_size(es: Seq<(Seq<char>, Option<Seq<char>>)>, r: Option<Seq<char>>) -> bool {
    &&& (exists|i: int| 0 <= i < es.len() && is_icon_candidate(#[trigger] es[i])) ==> r is Some
    &&& r matches Some(p) ==> exists|i: int| {
        &&& 0 <= i < es.len()
        &&& is_icon_candidate(#[trigger] es[i])
        &&& es[i].1 == Some(p)
        &&& forall|j: int| 0 <= j < es.len() && is_icon_candidate(#[trigger] es[j]) ==> parse_u32(es[j].0)->0 <= parse_u32(es[i].0)->0
        &&& forall|j: int| i < j < es.len() && is_icon_candidate(#[trigger] es[j]) ==> parse_u32(es[j].0)->0 < parse_u32(es[i].0)->0
    }
}

/// `last_max` picks an element of the candidates of the greatest size, with
/// no later element of that size; it picks one whenever there is one.
proof fn lemma_last_max_picks(c: Seq<(u32, Seq<char>)>)
    ensures
        c.len() > 0 <==> last_max(c) is Some,
        last_max(c) matches Some(b) ==> exists|k: int| {
            &&& 0 <= k < c.len()
            &&& #[trigger] c[k] == b
            &&& forall|j: int| 0 <= j < c.len() ==> (#[trigger] c[j]).0 <= b.0
            &&& forall|j: int| k < j < c.len() ==> (#[trigger] c[j]).0 < b.0
        },
    decreases c.len(),
{
    if c.len() > 0 {
        let d = c.drop_last();
        lemma_last_max_picks(d);
        let n1 = c.len() - 1;
        assert forall|j: int| 0 <= j < d.len() implies #[trigger] d[j] == c[j] by {}
        match last_max(d) {
            None => {
                assert(c[n1] == c.last());
            },
            Some(bd) => {
                let k = choose|k: int| {
                    &&& 0 <= k < d.len()
                    &&& #[trigger] d[k] == bd
                    &&& forall|j: int| 0 <= j < d.len() ==> (#[trigger] d[j]).0 <= bd.0
                    &&& forall|j: int| k < j < d.len() ==> (#[trigger] d[j]).0 < bd.0
                };
                if c.last().0 >= bd.0 {
                    assert(c[n1] == c.last());
                    assert forall|j: int| 0 <= j < c.len() implies (#[trigger] c[j]).0 <= c.last().0 by {
                        if j < n1 {
                            assert(d[j] == c[j]);
                        }
                    }
                } else {
                    assert(c[k] == bd);
                    assert forall|j: int| 0 <= j < c.len() implies (#[trigger] c[j]).0 <= bd.0 by {
                        if j < n1 {
                            assert(d[j] == c[j]);
                        }
                    }
                    assert forall|j: int| k < j < c.len() implies (#[trigger] c[j]).0 < bd.0 by {
                        if j < n1 {
                            assert(d[j] == c[j]);
                        }
                    }
                }
            },
        }
    }
}

/// The positions of the members that name a size with a path, in order.
pub open spec fn candidate_positions(es: Seq<(Seq<char>, Option<Seq<char>>)>) -> Seq<int>
    decreases es.len(),
{
    if es.len() == 0 {
        Seq::empty()
    } else {
        let prev = candidate_positions(es.drop_last());
        if is_icon_candidate(es.last()) {
            prev.push(es.len() - 1)
        } else {
            prev
        }
    }
}

/// The icon candidates are the members that name a size with a path, in order.
proof fn lemma_candidates_at(es: Seq<(Seq<char>, Option<Seq<char>>)>)
    ensures
        ({
            let c = icon_candidates(es);
            let p = candidate_positions(es);
            &&& p.len() == c.len()
            &&& forall|x: int| 0 <= x < p.len() ==> {
                &&& 0 <= #[trigger] p[x] < es.len()
                &&& is_icon_candidate(es[p[x]])
                &&& c[x] == (parse_u32(es[p[x]].0)->0, es[p[x]].1->0)
            }
            &&& forall|x: int, y: int| 0 <= x < y < p.len() ==> p[x] < p[y]
            &&& forall|i: int| 0 <= i < es.len() && is_icon_candidate(#[trigger] es[i]) ==> exists|x: int|
                0 <= x < p.len() && p[x] == i
        }),
    decreases es.len(),
{
    if es.len() > 0 {
        let d = es.drop_last();
        lemma_candidates_at(d);
        let c = icon_candidates(es);
        let p = candidate_positions(es);
        let pd = candidate_positions(d);
        let n1 = es.len() - 1;
        assert forall|x: int| 0 <= x < pd.len() implies #[trigger] p[x] == pd[x] && c[x] == icon_candidates(d)[x] by {}
        assert forall|x: int| 0 <= x < p.len() implies {
            &&& 0 <= #[trigger] p[x] < es.len()
            &&& is_icon_candidate(es[p[x]])
            &&& c[x] == (parse_u32(es[p[x]].0)->0, es[p[x]].1->0)
        } by {
            if x < pd.len() {
                assert(es[pd[x]] == d[pd[x]]);
            } else {
                assert(es[n1] == es.last());
            }
        }
        assert forall|i: int| 0 <= i < es.len() && is_icon_candidate(#[trigger] es[i]) implies exists|x: int|
            0 <= x < p.len() && p[x] == i by {
            if i < n1 {
                assert(d[i] == es[i]);
                let x = choose|x: int| 0 <= x < pd.len() && pd[x] == i;
                assert(p[x] == i);
            } else {
                assert(es[i] == es.last());
                assert(p[p.len() - 1] == i);
            }
        }
    }
}

/// The icon that `largest_icon` picks is the icon by size.
pub proof fn lemma_largest_icon_by_size(es: Seq<(Seq<char>, Option<Seq<char>>)>)
    ensures
        icon_by_size(es, largest_icon(es)),
{
    let c = icon_candidates(es);
    let p = candidate_positions(es);
    lemma_last_max_picks(c);
    lemma_candidates_at(es);
    if exists|i: int| 0 <= i < es.len() && is_icon_candidate(#[trigger] es[i]) {
        let i = choose|i: int| 0 <= i < es.len() && is_icon_candidate(#[trigger] es[i]);
        let x = choose|x: int| 0 <= x < p.len() && p[x] == i;
        assert(c.len() > 0);
    }
    match last_max(c) {
        None => {},
        Some(b) => {
            let k = choose|k: int| {
                &&& 0 <= k < c.len()
                &&& #[trigger] c[k] == b
                &&& forall|j: int| 0 <= j < c.len() ==> (#[trigger] c[j]).0 <= b.0
                &&& forall|j: int| k < j < c.len() ==> (#[trigger] c[j]).0 < b.0
            };
            let i = p[k];
            assert(is_icon_candidate(es[i]));
            assert(es[i].1 == Some(b.1));
            assert forall|j: int| 0 <= j < es.len() && is_icon_candidate(#[trigger] es[j]) implies parse_u32(es[j].0)->0
                <= parse_u32(es[i].0)->0 by {
                let x = choose|x: int| 0 <= x < p.len() && p[x] == j;
                assert(c[x].0 <= b.0);
            }
            assert forall|j: int| i < j < es.len() && is_icon_candidate(#[trigger] es[j]) implies parse_u32(es[j].0)->0
                < parse_u32(es[i].0)->0 by {
                let x = choose|x: int| 0 <= x < p.len() && p[x] == j;
                if x <= k {
                    if x < k {
                        assert(p[x] < p[k]);
                    }
                }
                assert(c[x].0 < b.0);
            }
        },
    }
}

/// How a manifest's icon value `v` gives icon `r`: none without a value; the
/// string itself; none for a value that is neither a string nor an object;
/// for an object, the icon by size of its members.
pub open spec fn icon_read_from(v: Option<Seq<char>>, r: Option<Seq<char>>) -> bool {
    match v {
        None => r is None,
        Some(t) => match json_string_value(t) {
            Some(s) => r == Some(s),
            None => match json_object_texts(t) {
                None => r is None,
                Some(es) => icon_by_size(string_members(es), r),
            },
        },
    }
}

/// The icon of a Fabric manifest is what its `icon` member gives: the string
/// itself, or, for an object of sizes, the path of the greatest size.
pub proof fn lemma_fabric_icon(text: Seq<char>)
    ensures
        icon_read_from(json_member_text(text, "icon"@), fabric_desc(text).4),
{
    match json_member_text(text, "icon"@) {
        Some(t) => match json_object_texts(t) {
            Some(es) => lemma_largest_icon_by_size(string_members(es)),
            None => {},
        },
        None => {},
    }
}

/// The icon of a Quilt manifest is read from `quilt_loader.metadata.icon` as
/// that of a Fabric manifest: the string itself, or the path of the greatest size.
pub proof fn lemma_quilt_icon(text: Seq<char>)
    ensures
        icon_read_from(
            match json_member_text(text, "quilt_loader"@) {
                Some(l) => json_at(l, seq!["metadata"@, "icon"@]),
                None => None,
            },
            quilt_desc(text).4,
        ),
{
    match json_member_text(text, "quilt_loader"@) {
        Some(l) => match json_at(l, seq!["metadata"@, "icon"@]) {
            Some(t) => match json_object_texts(t) {
                Some(es) => lemma_largest_icon_by_size(string_members(es)),
                None => {},
            },
            None => {},
        },
        None => {},
    }
}

} // verus!
