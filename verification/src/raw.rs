//! Raw IQ files, which have no metadata.

use crate::datatype::DataType;
use crate::text::same_text;
use vstd::prelude::*;

verus! {

/// The place behind the last `c` in `s`, or 0.
pub open spec fn behind_last(s: Seq<char>, c: char) -> int
    decreases s.len(),
{
    if s.len() == 0 {
        0
    } else if s.last() == c {
        s.len() as int
    } else {
        behind_last(s.drop_last(), c)
    }
}

/// A path without the separators, and the names of the directory itself (`.`),
/// that stand behind its last name.
pub open spec fn trimmed(path: Seq<char>) -> Seq<char>
    decreases path.len(),
{
    if path.len() == 0 {
        path
    } else if path.last() == '/' || (path.len() >= 2 && path.last() == '.' && path[path.len() - 2]
        == '/') {
        trimmed(path.drop_last())
    } else {
        path
    }
}

/// The last name of a path.
pub open spec fn file_name(path: Seq<char>) -> Seq<char> {
    trimmed(path).skip(behind_last(trimmed(path), '/'))
}

/// A path that means the same on every platform: only `/` is a separator in it,
/// and it has no prefix, such as a drive or a server.
pub open spec fn plain(path: Seq<char>) -> bool {
    &&& !path.contains('\\')
    &&& !(path.len() >= 2 && path[1] == ':')
    &&& !(path.len() >= 2 && path[0] == '/' && path[1] == '/')
}

/// The extension of a name: what stands behind its last dot, unless that dot is
/// its first character. The name of the parent directory (`..`) has none.
pub open spec fn name_extension(name: Seq<char>) -> Option<Seq<char>> {
    let at = behind_last(name, '.');
    if at <= 1 || name == seq!['.', '.'] {
        None
    } else {
        Some(name.skip(at))
    }
}

/// `std::path::Path::extension`, of a path given as text. For a plain path it is
/// the extension of the last name, as its documentation says: the portion of the
/// file name after the final dot, and none where there is no file name (a path
/// that is empty, a root, or ends in `..`), no dot, or no dot but a leading one.
/// Separators at the end of a path, and a `.` behind one, are normalised away.
/// Of any other path nothing is claimed: what in it is a separator or a prefix
/// depends on the platform.
#[verifier::external_body]
fn extension(path: &str) -> (r: Option<String>)
    ensures
        plain(path@) ==> match r {
            Some(e) => name_extension(file_name(path@)) == Some(e@),
            None => name_extension(file_name(path@)) is None,
        },
{
    std::path::Path::new(path).extension().map(|e| e.to_string_lossy().into_owned())
}

/// The format of a raw file with this extension.
pub open spec fn format_of_extension(extension: Option<Seq<char>>) -> DataType {
    if extension == Some("bin"@) {
        DataType::Ci16Le
    } else {
        DataType::Cf32Le
    }
}

/// The on-disk format of a raw file with a given extension: `bin` is int16
/// scaled by 1/32768 (`ci16_le`); anything else is interleaved `f32`
/// (`cf32_le`).
pub fn extension_datatype(extension: Option<&str>) -> (d: DataType)
    ensures
        d == format_of_extension(
            match extension {
                Some(e) => Some(e@),
                None => None,
            },
        ),
{
    match extension {
        Some(e) => if same_text(e, "bin") {
            DataType::Ci16Le
        } else {
            DataType::Cf32Le
        },
        None => DataType::Cf32Le,
    }
}

/// The on-disk format of a raw file, decided by its extension: `.bin` is int16
/// scaled by 1/32768 (`ci16_le`); anything else is interleaved `f32`
/// (`cf32_le`).
pub fn raw_datatype(path: &str) -> (d: DataType)
    ensures
        plain(path@) ==> d == format_of_extension(name_extension(file_name(path@))),
        d == DataType::Ci16Le || d == DataType::Cf32Le,
{
    match extension(path) {
        Some(e) => extension_datatype(Some(e.as_str())),
        None => extension_datatype(None),
    }
}

} // verus!
