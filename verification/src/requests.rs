//! Checks on what the user interface sends, and the names of exported files.
use crate::domain::{ProjectRef, SaveSettingsInput};
use crate::profiles::{folder_char, utf8_len, utf8_longer_than};
use crate::text::{chars_of, has_prefix, is_ascii_alnum_char, starts_with, string_of, trim, trimmed};
use vstd::prelude::*;

verus! {

/// Whether `uuid::Uuid::parse_str` accepts the text (simple, hyphenated,
/// URN or braced forms).
pub uninterp spec fn uuid_text_accepted(s: Seq<char>) -> bool;

/// Calls `uuid::Uuid::parse_str`; the contract claims only that the answer
/// is whether the named parser accepts the text.
#[verifier::external_body]
fn parses_as_uuid(value: &str) -> (r: bool)
    ensures
        r == uuid_text_accepted(value@),
{
    uuid::Uuid::parse_str(value).is_ok()
}

/// Accepts an identifier sent by the interface when it reads as a UUID.
pub fn validate_uuid(value: &str) -> (r: Result<(), String>)
    ensures
        uuid_text_accepted(value@) ==> r is Ok,
        !uuid_text_accepted(value@) ==> (r matches Err(m) && m@ == "Identificador inválido."@),
{
    if parses_as_uuid(value) {
        Ok(())
    } else {
        Err(String::from_str("Identificador inválido."))
    }
}

/// Accepts a project sent by the interface: an id of 1 to 128 bytes.
pub fn validate_project(project: &ProjectRef) -> (r: Result<(), String>)
    ensures
        r is Ok <==> project.project_id@.len() > 0 && utf8_len(project.project_id@) <= 128,
        r matches Err(m) ==> m@ == "Projeto inválido."@,
{
    if chars_of(project.project_id.as_str()).len() == 0 || utf8_longer_than(project.project_id.as_str(), 128) {
        Err(String::from_str("Projeto inválido."))
    } else {
        Ok(())
    }
}

/// The base name of an exported file: the profile name with every other
/// character turned into `-`, or `modpack` for an empty name.
pub open spec fn export_name(value: Seq<char>) -> Seq<char> {
    if value.len() == 0 {
        "modpack"@
    } else {
        value.map_values(|c: char| folder_char(c))
    }
}

/// A file name made from a profile name for its exports.
pub fn safe_export_name(value: &str) -> (r: String)
    ensures
        r@ == export_name(value@),
{
    let chars = chars_of(value);
    if chars.len() == 0 {
        return String::from_str("modpack");
    }
    let mut out: Vec<char> = Vec::new();
    let mut i: usize = 0;
    while i < chars.len()
        invariant
            i <= chars.len(),
            chars@ == value@,
            out@ == value@.map_values(|c: char| folder_char(c)).take(i as int),
        decreases chars.len() - i,
    {
        let c = chars[i];
        let kept = if is_ascii_alnum_char(c) || c == '-' || c == '_' { c } else { '-' };
        out.push(kept);
        i = i + 1;
        assert(out@ =~= value@.map_values(|c: char| folder_char(c)).take(i as int));
    }
    assert(value@.map_values(|c: char| folder_char(c)).take(chars.len() as int) =~= value@.map_values(
        |c: char| folder_char(c),
    ));
    string_of(out.as_slice())
}

/// What saving the settings does to the stored CurseForge key.
#[derive(Debug)]
pub enum KeyChange {
    Clear,
    Store(String),
    Keep,
}

/// The key change and the download concurrency a settings form asks for:
/// clearing wins over a new key; a new key is trimmed, ignored when blank,
/// and refused beyond 512 bytes; the concurrency is kept within 1 to 6.
pub fn settings_change(input: &SaveSettingsInput) -> (r: Result<(KeyChange, u8), String>)
    ensures
        ({
            let clear = input.clear_curse_forge_api_key == Some(true);
            let concurrency = if input.download_concurrency < 1 {
                1
            } else if input.download_concurrency > 6 {
                6
            } else {
                input.download_concurrency
            };
            &&& clear ==> (r matches Ok((KeyChange::Clear, c)) && c == concurrency)
            &&& !clear ==> match input.curse_forge_api_key {
                Some(k) => if trim(k@).len() == 0 {
                    r matches Ok((KeyChange::Keep, c)) && c == concurrency
                } else if utf8_len(trim(k@)) > 512 {
                    r matches Err(m) && m@ == "A chave da CurseForge é longa demais."@
                } else {
                    r matches Ok((KeyChange::Store(s), c)) && s@ == trim(k@) && c == concurrency
                },
                None => r matches Ok((KeyChange::Keep, c)) && c == concurrency,
            }
        }),
{
    let concurrency: u8 = if input.download_concurrency < 1 {
        1
    } else if input.download_concurrency > 6 {
        6
    } else {
        input.download_concurrency
    };
    let clear = match input.clear_curse_forge_api_key {
        Some(flag) => flag,
        None => false,
    };
    if clear {
        return Ok((KeyChange::Clear, concurrency));
    }
    match &input.curse_forge_api_key {
        Some(key) => {
            let key = trimmed(key.as_str());
            if chars_of(key.as_str()).len() == 0 {
                Ok((KeyChange::Keep, concurrency))
            } else if utf8_longer_than(key.as_str(), 512) {
                Err(String::from_str("A chave da CurseForge é longa demais."))
            } else {
                Ok((KeyChange::Store(key), concurrency))
            }
        },
        None => Ok((KeyChange::Keep, concurrency)),
    }
}

/// Opens a project's page only when the catalog gave an HTTPS address.
pub fn checked_project_url(url: String) -> (r: Result<String, String>)
    ensures
        has_prefix(url@, "https://"@) ==> r == Ok::<String, String>(url),
        !has_prefix(url@, "https://"@) ==> (r matches Err(m) && m@ == "O provedor retornou uma URL insegura."@),
{
    if starts_with(&chars_of(url.as_str()), &chars_of("https://")) {
        Ok(url)
    } else {
        Err(String::from_str("O provedor retornou uma URL insegura."))
    }
}

} // verus!
