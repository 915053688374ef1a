//! Trusted items: declarations of outside types and wrappers of the outside
//! functions that the library calls. Verus believes their contracts; each
//! doc comment says what is claimed of the outside code.
use base64::Engine;
use std::io::Read;
use vstd::prelude::*;
use crate::domain::opt_view;

verus! {

/// The error type of `std::io`, carried through unread.
#[verifier::external_type_specification]
#[verifier::external_body]
pub struct ExIoError(std::io::Error);

/// The error type of the `zip` crate, carried through unread.
#[verifier::external_type_specification]
#[verifier::external_body]
pub struct ExZipError(zip::result::ZipError);

} // verus!

verus! {

/// What `str::to_lowercase` returns for a text (Unicode lower-case mapping).
pub uninterp spec fn unicode_lowercase(s: Seq<char>) -> Seq<char>;

/// Calls `str::to_lowercase`; its result is a function of the text alone.
#[verifier::external_body]
pub(crate) fn to_lowercase(s: &str) -> (r: String)
    ensures
        r@ == unicode_lowercase(s@),
{
    s.to_lowercase()
}

} // verus!

verus! {

/// A mod archive read from memory.
pub type JarArchive = zip::ZipArchive<std::io::Cursor<Vec<u8>>>;

/// The archive type of the `zip` crate, over any reader.
#[verifier::external_type_specification]
#[verifier::external_body]
#[verifier::reject_recursive_types(R)]
pub struct ExZipArchive<R>(zip::ZipArchive<R>);

/// The in-memory reader of `std::io`.
#[verifier::external_type_specification]
#[verifier::external_body]
#[verifier::reject_recursive_types(T)]
pub struct ExCursor<T>(std::io::Cursor<T>);

/// What `zip::ZipArchive::new` reads from the bytes of an archive: `None`
/// when it refuses them; else the name of each entry by index (`None` where
/// `by_index` fails for that entry) and, for each name that `by_name` finds
/// and whose content reads to the end, that content.
pub uninterp spec fn zip_contents(bytes: Seq<u8>) -> Option<(Seq<Option<Seq<char>>>, Map<Seq<char>, Seq<u8>>)>;

/// The entry names of an open archive, by index, as `by_index(i)` and
/// `ZipFile::name` give them (`None` where `by_index` fails).
pub uninterp spec fn archive_names(a: JarArchive) -> Seq<Option<Seq<char>>>;

/// The readable contents of an open archive, by entry name, as `by_name`
/// and `Read::read_to_end` give them.
pub uninterp spec fn archive_data(a: JarArchive) -> Map<Seq<char>, Seq<u8>>;

/// Calls `zip::ZipArchive::new` on the bytes of an archive. The archive it
/// opens holds what `zip_contents` says of the bytes; it refuses exactly the
/// bytes of which `zip_contents` is `None`.
#[verifier::external_body]
pub(crate) fn open_archive(bytes: Vec<u8>) -> (r: Result<JarArchive, zip::result::ZipError>)
    ensures
        r matches Ok(a) ==> zip_contents(bytes@) == Some((archive_names(a), archive_data(a))),
        r is Err ==> zip_contents(bytes@) is None,
{
    zip::ZipArchive::new(std::io::Cursor::new(bytes))
}

/// Calls `ZipArchive::len`: the number of entries.
#[verifier::external_body]
pub(crate) fn archive_len(a: &JarArchive) -> (r: usize)
    ensures
        r == archive_names(*a).len(),
{
    a.len()
}

/// Calls `ZipArchive::by_index` and `ZipFile::name`: the name of entry `i`,
/// `None` where `by_index` fails. Reading moves the reader only: the entries
/// and their contents stay.
#[verifier::external_body]
pub(crate) fn archive_entry_name(a: &mut JarArchive, i: usize) -> (r: Option<String>)
    ensures
        archive_names(*final(a)) == archive_names(*old(a)),
        archive_data(*final(a)) == archive_data(*old(a)),
        i < archive_names(*old(a)).len() ==> match r {
            Some(s) => archive_names(*old(a))[i as int] == Some(s@),
            None => archive_names(*old(a))[i as int] is None,
        },
{
    a.by_index(i).ok().map(|f| f.name().to_string())
}

/// Calls `ZipArchive::by_name` and `Read::read_to_end`: the content of the
/// entry named `name`, `None` where either fails. Reading moves the reader
/// only: the entries and their contents stay.
#[verifier::external_body]
pub(crate) fn archive_read(a: &mut JarArchive, name: &str) -> (r: Option<Vec<u8>>)
    ensures
        archive_names(*final(a)) == archive_names(*old(a)),
        archive_data(*final(a)) == archive_data(*old(a)),
        match r {
            Some(v) => archive_data(*old(a)).contains_key(name@) && archive_data(*old(a))[name@] == v@,
            None => !archive_data(*old(a)).contains_key(name@),
        },
{
    let mut file = a.by_name(name).ok()?;
    let mut buf = Vec::new();
    file.read_to_end(&mut buf).ok()?;
    Some(buf)
}

/// Calls `String::from_utf8`: the text that the bytes encode, `None` when
/// they are not UTF-8.
#[verifier::external_body]
pub(crate) fn utf8_text(bytes: Vec<u8>) -> (r: Option<String>)
    ensures
        r is Some <==> vstd::utf8::valid_utf8(bytes@),
        r matches Some(s) ==> s@ == vstd::utf8::decode_utf8(bytes@),
{
    String::from_utf8(bytes).ok()
}

/// What `serde_json` gives for member `key` of the JSON text `text`: the
/// member's value written back as JSON text (`Value::to_string`), `None`
/// when the text does not parse, is no object, or lacks the member.
pub uninterp spec fn json_member_text(text: Seq<char>, key: Seq<char>) -> Option<Seq<char>>;

/// What `serde_json` gives for the JSON text `text` when it is a string: the string.
pub uninterp spec fn json_string_value(text: Seq<char>) -> Option<Seq<char>>;

/// What `serde_json` gives for the JSON text `text` when it is an array:
/// each element written back as JSON text.
pub uninterp spec fn json_array_texts(text: Seq<char>) -> Option<Seq<Seq<char>>>;

/// What `serde_json` gives for the JSON text `text` when it is an object:
/// each member, in the order of `serde_json::Map`, with its value written
/// back as JSON text.
pub uninterp spec fn json_object_texts(text: Seq<char>) -> Option<Seq<(Seq<char>, Seq<char>)>>;

/// What `toml` gives for the tables of the `mods` array of a TOML document
/// read into a `toml::Value`: for each element, in order, its string members
/// `modId`, `displayName`, `version` and `logoFile` (`None` where missing or
/// not a string); none when the document does not parse or has no array `mods`.
pub uninterp spec fn toml_mod_fields(text: Seq<char>) -> Seq<(Option<Seq<char>>, Option<Seq<char>>, Option<Seq<char>>, Option<Seq<char>>)>;

/// Calls `serde_json::from_str::<Value>`, `Value::get` and `Value::to_string`.
#[verifier::external_body]
pub(crate) fn json_member(text: &str, key: &str) -> (r: Option<String>)
    ensures
        r matches Some(s) ==> json_member_text(text@, key@) == Some(s@),
        r is None ==> json_member_text(text@, key@) is None,
{
    let value: serde_json::Value = serde_json::from_str(text).ok()?;
    value.get(key).map(|v| v.to_string())
}

/// Calls `serde_json::from_str::<Value>` and `Value::as_str`.
#[verifier::external_body]
pub(crate) fn json_string(text: &str) -> (r: Option<String>)
    ensures
        r matches Some(s) ==> json_string_value(text@) == Some(s@),
        r is None ==> json_string_value(text@) is None,
{
    let value: serde_json::Value = serde_json::from_str(text).ok()?;
    value.as_str().map(|s| s.to_string())
}

/// Calls `serde_json::from_str::<Value>`, `Value::as_array` and `Value::to_string`.
#[verifier::external_body]
pub(crate) fn json_array(text: &str) -> (r: Option<Vec<String>>)
    ensures
        r matches Some(v) ==> json_array_texts(text@) == Some(texts_of(v@)),
        r is None ==> json_array_texts(text@) is None,
{
    let value: serde_json::Value = serde_json::from_str(text).ok()?;
    value.as_array().map(|items| items.iter().map(|v| v.to_string()).collect())
}

/// Calls `serde_json::from_str::<Value>`, `Value::as_object` and `Value::to_string`.
#[verifier::external_body]
pub(crate) fn json_object(text: &str) -> (r: Option<Vec<(String, String)>>)
    ensures
        r matches Some(v) ==> json_object_texts(text@) == Some(pairs_of(v@)),
        r is None ==> json_object_texts(text@) is None,
{
    let value: serde_json::Value = serde_json::from_str(text).ok()?;
    value.as_object().map(|m| m.iter().map(|(k, v)| (k.clone(), v.to_string())).collect())
}

/// The fields of one `[[mods]]` table: mod id, display name, version, logo file.
pub type ModFields = (Option<String>, Option<String>, Option<String>, Option<String>);

/// The views of the fields of `[[mods]]` tables.
pub open spec fn fields_view(v: Seq<ModFields>) -> Seq<(Option<Seq<char>>, Option<Seq<char>>, Option<Seq<char>>, Option<Seq<char>>)> {
    Seq::new(v.len(), |i: int| (opt_view(v[i].0), opt_view(v[i].1), opt_view(v[i].2), opt_view(v[i].3)))
}

/// Calls `toml::from_str::<toml::Value>`, `Value::get`, `Value::as_array`
/// and `Value::as_str`, picking the four fields of each `[[mods]]` table.
#[verifier::external_body]
pub(crate) fn toml_mods(text: &str) -> (r: Vec<ModFields>)
    ensures
        fields_view(r@) == toml_mod_fields(text@),
{
    let field = |m: &toml::Value, k: &str| m.get(k).and_then(|x| x.as_str()).map(str::to_string);
    let doc: Option<toml::Value> = toml::from_str(text).ok();
    doc.as_ref()
        .and_then(|d| d.get("mods"))
        .and_then(|x| x.as_array())
        .map(|ms| ms.iter().map(|m| (field(m, "modId"), field(m, "displayName"), field(m, "version"), field(m, "logoFile"))).collect())
        .unwrap_or_default()
}

/// The views of a list of texts.
pub open spec fn texts_of(v: Seq<String>) -> Seq<Seq<char>> {
    Seq::new(v.len(), |i: int| v[i]@)
}

/// The views of a list of pairs of texts.
pub open spec fn pairs_of(v: Seq<(String, String)>) -> Seq<(Seq<char>, Seq<char>)> {
    Seq::new(v.len(), |i: int| (v[i].0@, v[i].1@))
}

/// The character of a 6-bit value in the standard base64 alphabet (RFC 4648).
pub open spec fn base64_digit(v: int) -> char {
    if v < 26 {
        ('A' as int + v) as char
    } else if v < 52 {
        ('a' as int + (v - 26)) as char
    } else if v < 62 {
        ('0' as int + (v - 52)) as char
    } else if v == 62 {
        '+'
    } else {
        '/'
    }
}

/// Standard base64 with padding (RFC 4648, section 4), as `base64`'s
/// `STANDARD` engine writes it: each group of three bytes gives four
/// characters; a last group of one or two bytes is padded with `=`.
pub open spec fn base64_standard(bytes: Seq<u8>) -> Seq<char>
    decreases bytes.len(),
{
    if bytes.len() == 0 {
        Seq::empty()
    } else if bytes.len() == 1 {
        let n = bytes[0] * 65536;
        seq![base64_digit(n / 262144), base64_digit(n / 4096 % 64), '=', '=']
    } else if bytes.len() == 2 {
        let n = bytes[0] * 65536 + bytes[1] * 256;
        seq![base64_digit(n / 262144), base64_digit(n / 4096 % 64), base64_digit(n / 64 % 64), '=']
    } else {
        let n = bytes[0] * 65536 + bytes[1] * 256 + bytes[2];
        seq![
            base64_digit(n / 262144),
            base64_digit(n / 4096 % 64),
            base64_digit(n / 64 % 64),
            base64_digit(n % 64),
        ] + base64_standard(bytes.subrange(3, bytes.len() as int))
    }
}

/// Calls `base64::engine::general_purpose::STANDARD.encode`.
#[verifier::external_body]
pub(crate) fn base64_encode(bytes: &[u8]) -> (r: String)
    ensures
        r@ == base64_standard(bytes@),
{
    base64::engine::general_purpose::STANDARD.encode(bytes)
}

/// What `uuid::Uuid::new_v5` in the URL namespace gives for the UTF-8 bytes
/// of `text`, written in the hyphenated lower-case form.
pub uninterp spec fn uuid_v5_url(text: Seq<char>) -> Seq<char>;

/// Calls `uuid::Uuid::new_v5(&Uuid::NAMESPACE_URL, text.as_bytes())` and `Uuid::to_string`.
#[verifier::external_body]
pub(crate) fn stable_uuid(text: &str) -> (r: String)
    ensures
        r@ == uuid_v5_url(text@),
{
    uuid::Uuid::new_v5(&uuid::Uuid::NAMESPACE_URL, text.as_bytes()).to_string()
}

/// A lower-case hexadecimal digit.
pub open spec fn is_lower_hex(c: char) -> bool {
    ('0' <= c && c <= '9') || ('a' <= c && c <= 'f')
}

/// The text of a version 4 UUID in hyphenated lower-case form: 32 hex digits
/// in groups of 8-4-4-4-12, version digit `4`, variant digit `8`, `9`, `a` or `b`.
pub open spec fn is_v4_uuid_text(s: Seq<char>) -> bool {
    &&& s.len() == 36
    &&& forall|i: int| 0 <= i < 36 ==> if i == 8 || i == 13 || i == 18 || i == 23 {
        s[i] == '-'
    } else {
        is_lower_hex(#[trigger] s[i])
    }
    &&& s[14] == '4'
    &&& (s[19] == '8' || s[19] == '9' || s[19] == 'a' || s[19] == 'b')
}

/// Calls `uuid::Uuid::new_v4` and `Uuid::to_string`: a random identifier.
/// Only its form is promised: the random bits are not stated.
#[verifier::external_body]
pub(crate) fn random_uuid() -> (r: String)
    ensures
        is_v4_uuid_text(r@),
{
    uuid::Uuid::new_v4().to_string()
}

} // verus!
