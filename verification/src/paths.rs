//! The paths of the tools, read from the JSON configuration file.
use vstd::prelude::*;

verus! {

#[verifier::external_type_specification]
#[verifier::external_body]
pub struct ExJsonValue(serde_json::Value);

#[verifier::external_type_specification]
#[verifier::external_body]
pub struct ExJsonError(serde_json::Error);

/// The members of a JSON value that is an object whose values are strings,
/// each key mapped to its string; empty for a value that is not an object.
pub uninterp spec fn json_string_members(value: serde_json::Value) -> Map<Seq<char>, Seq<char>>;

/// What `serde_json::from_str::<serde_json::Value>` makes of a text: `None`
/// where it rejects the text, otherwise the string members (as
/// `json_string_members` gives them) of the value it reads.
pub uninterp spec fn json_text_string_members(text: Seq<char>) -> Option<
    Map<Seq<char>, Seq<char>>,
>;

/// Parses a JSON text.
///
/// Trusted: calls `serde_json::from_str::<serde_json::Value>`. The contract
/// claims that it succeeds exactly where `json_text_string_members` has a
/// value, and that the string members of the value it returns are that
/// value; both are names for what serde_json computes from the text alone.
/// Nothing is stated of the other members of the value.
#[verifier::external_body]
fn parse_json(text: &str) -> (r: Result<serde_json::Value, serde_json::Error>)
    ensures
        r is Ok <==> json_text_string_members(text@) is Some,
        r matches Ok(v) ==> json_string_members(v) == json_text_string_members(text@)->Some_0,
{
    serde_json::from_str(text)
}

/// The string value of the member `key` of a JSON value.
///
/// Trusted: indexes the value with `key` (serde_json's `Index` for `str`, which
/// looks the key up in an object and gives `Null` for anything else) and calls
/// `serde_json::Value::as_str`, which gives the text of a `String` value only.
/// The contract claims that the result is the member's string where
/// `json_string_members` holds the key, and `None` otherwise.
#[verifier::external_body]
fn json_string_member(value: &serde_json::Value, key: &str) -> (r: Option<String>)
    ensures
        r is Some <==> json_string_members(*value).dom().contains(key@),
        r matches Some(s) ==> s@ == json_string_members(*value)[key@],
{
    value[key].as_str().map(String::from)
}

/// The keys of the configuration file, in the order they are looked up.
#[derive(Clone, Copy, Debug, PartialEq, Eq, Structural)]
pub enum PathKey {
    Av1an,
    Ssim2,
    Arch,
    Ffmpeg,
    Ffprobe,
    EncodingSettings,
}

impl PathKey {
    /// The key as it is written in the file.
    pub open spec fn name_spec(self) -> Seq<char> {
        match self {
            PathKey::Av1an => "av1an"@,
            PathKey::Ssim2 => "ssim2"@,
            PathKey::Arch => "arch"@,
            PathKey::Ffmpeg => "ffmpeg"@,
            PathKey::Ffprobe => "ffprobe"@,
            PathKey::EncodingSettings => "encoding_settings"@,
        }
    }

    /// The key as it is written in the file.
    pub fn name(&self) -> (r: &'static str)
        ensures
            r@ == self.name_spec(),
    {
        match self {
            PathKey::Av1an => "av1an",
            PathKey::Ssim2 => "ssim2",
            PathKey::Arch => "arch",
            PathKey::Ffmpeg => "ffmpeg",
            PathKey::Ffprobe => "ffprobe",
            PathKey::EncodingSettings => "encoding_settings",
        }
    }
}

/// Why the configuration could not be read.
#[derive(Clone, Copy, Debug, PartialEq, Eq, Structural)]
pub enum PathsError {
    /// The file could not be opened or read.
    Unreadable,
    /// The file is not JSON.
    Malformed,
    /// A key is missing, or its value is not a string.
    MissingKey(PathKey),
}

impl PathsError {
    /// The message shown for the error.
    pub open spec fn message_spec(self) -> Seq<char> {
        match self {
            PathsError::Unreadable => "Cannot Open/find json file \"paths.json\""@,
            PathsError::Malformed => "\"paths.json\" fromatted incorectly"@,
            PathsError::MissingKey(k) => "\""@ + k.name_spec()
                + "\" was not found inside \"paths.json\""@,
        }
    }

    /// The message shown for the error.
    pub fn message(&self) -> (r: String)
        ensures
            r@ == self.message_spec(),
    {
        match self {
            PathsError::Unreadable => "Cannot Open/find json file \"paths.json\"".to_owned(),
            PathsError::Malformed => "\"paths.json\" fromatted incorectly".to_owned(),
            PathsError::MissingKey(k) => {
                let mut r = "\"".to_owned();
                r.append(k.name());
                r.append("\" was not found inside \"paths.json\"");
                r
            },
        }
    }
}

/// The paths of the tools and the encoder settings template.
#[derive(Clone, Debug, PartialEq, Eq)]
pub struct ToolPaths {
    pub av1an: String,
    pub ssim2: String,
    pub arch: String,
    pub ffmpeg: String,
    pub ffprobe: String,
    pub encoding_settings: String,
}

/// The first key, in lookup order, that has no string value among the members.
pub open spec fn first_missing_key(m: Map<Seq<char>, Seq<char>>) -> Option<PathKey> {
    if !m.dom().contains(PathKey::Av1an.name_spec()) {
        Some(PathKey::Av1an)
    } else if !m.dom().contains(PathKey::Ssim2.name_spec()) {
        Some(PathKey::Ssim2)
    } else if !m.dom().contains(PathKey::Arch.name_spec()) {
        Some(PathKey::Arch)
    } else if !m.dom().contains(PathKey::Ffmpeg.name_spec()) {
        Some(PathKey::Ffmpeg)
    } else if !m.dom().contains(PathKey::Ffprobe.name_spec()) {
        Some(PathKey::Ffprobe)
    } else if !m.dom().contains(PathKey::EncodingSettings.name_spec()) {
        Some(PathKey::EncodingSettings)
    } else {
        None
    }
}

/// Whether `r` is what the string members `m` of the configuration give: the
/// first missing key as the error, or every path taken from its key.
pub open spec fn paths_from_members(m: Map<Seq<char>, Seq<char>>, r: Result<ToolPaths, PathsError>) -> bool {
    match first_missing_key(m) {
        Some(k) => r == Err::<ToolPaths, PathsError>(PathsError::MissingKey(k)),
        None => r matches Ok(p) && {
            &&& p.av1an@ == m[PathKey::Av1an.name_spec()]
            &&& p.ssim2@ == m[PathKey::Ssim2.name_spec()]
            &&& p.arch@ == m[PathKey::Arch.name_spec()]
            &&& p.ffmpeg@ == m[PathKey::Ffmpeg.name_spec()]
            &&& p.ffprobe@ == m[PathKey::Ffprobe.name_spec()]
            &&& p.encoding_settings@ == m[PathKey::EncodingSettings.name_spec()]
        },
    }
}

/// The string value of one key of the configuration.
fn member(value: &serde_json::Value, key: PathKey) -> (r: Result<String, PathsError>)
    ensures
        match r {
            Ok(s) => json_string_members(*value).dom().contains(key.name_spec()) && s@
                == json_string_members(*value)[key.name_spec()],
            Err(e) => !json_string_members(*value).dom().contains(key.name_spec()) && e
                == PathsError::MissingKey(key),
        },
{
    match json_string_member(value, key.name()) {
        Some(s) => Ok(s),
        None => Err(PathsError::MissingKey(key)),
    }
}

/// Reads the tool paths from a parsed configuration: the keys `av1an`,
/// `ssim2`, `arch`, `ffmpeg`, `ffprobe` and `encoding_settings`, each of which
/// must hold a string; the first one that does not is the error.
pub fn tool_paths_from_value(value: &serde_json::Value) -> (r: Result<ToolPaths, PathsError>)
    ensures
        paths_from_members(json_string_members(*value), r),
{
    let av1an = member(value, PathKey::Av1an)?;
    let ssim2 = member(value, PathKey::Ssim2)?;
    let arch = member(value, PathKey::Arch)?;
    let ffmpeg = member(value, PathKey::Ffmpeg)?;
    let ffprobe = member(value, PathKey::Ffprobe)?;
    let encoding_settings = member(value, PathKey::EncodingSettings)?;
    Ok(ToolPaths { av1an, ssim2, arch, ffmpeg, ffprobe, encoding_settings })
}

/// Reads the tool paths from the text of the configuration file: an error
/// where the text is not JSON, otherwise as `tool_paths_from_value` reads them.
pub fn tool_paths_from_json(text: &str) -> (r: Result<ToolPaths, PathsError>)
    ensures
        match json_text_string_members(text@) {
            None => r == Err::<ToolPaths, PathsError>(PathsError::Malformed),
            Some(m) => paths_from_members(m, r),
        },
{
    match parse_json(text) {
        Ok(value) => tool_paths_from_value(&value),
        Err(_) => Err(PathsError::Malformed),
    }
}

}
