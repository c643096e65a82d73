//! The two files of a SigMF recording.

use crate::text;
use crate::text::{joined, strip_suffix};
use vstd::prelude::*;
use vstd::string::*;

verus! {

/// The recording that a path belongs to: the path without the ending of a
/// metadata or a data file, if it has one.
pub open spec fn recording(path: Seq<char>) -> Seq<char> {
    if text::ends_in(path, ".sigmf-meta"@) {
        text::before(path, ".sigmf-meta"@)
    } else if text::ends_in(path, ".sigmf-data"@) {
        text::before(path, ".sigmf-data"@)
    } else {
        path
    }
}

/// The metadata file of the recording that a path belongs to.
pub open spec fn meta_path(path: Seq<char>) -> Seq<char> {
    recording(path) + ".sigmf-meta"@
}

/// The data file of the recording that a path belongs to.
pub open spec fn data_path(path: Seq<char>) -> Seq<char> {
    recording(path) + ".sigmf-data"@
}

/// Why a path does not lead to a recording.
#[derive(Clone, Debug)]
pub enum PairError {
    MetaMissing { meta: String, path: String },
    DataMissing { data: String, path: String },
}

impl PairError {
    pub open spec fn text(self) -> Seq<char> {
        match self {
            PairError::MetaMissing { meta, path } => "SigMF metadata file not found: "@ + meta@
                + " (looked up from "@ + path@ + ")"@,
            PairError::DataMissing { data, path } => "SigMF data file not found: "@ + data@
                + " (looked up from "@ + path@ + ")"@,
        }
    }

    /// The error in words.
    pub fn message(&self) -> (m: String)
        ensures
            m@ == self.text(),
    {
        let (mut m, file, path) = match self {
            PairError::MetaMissing { meta, path } => (
                "SigMF metadata file not found: ".to_owned(),
                meta,
                path,
            ),
            PairError::DataMissing { data, path } => (
                "SigMF data file not found: ".to_owned(),
                data,
                path,
            ),
        };
        m.append(file.as_str());
        m.append(" (looked up from ");
        m.append(path.as_str());
        m.append(")");
        m
    }
}

/// The `(meta, data)` paths of a recording, given the path of either file or
/// their common part (which may contain dots).
pub fn pair_paths(path: &str) -> (r: (String, String))
    ensures
        r.0@ == meta_path(path@),
        r.1@ == data_path(path@),
{
    let base: String = match strip_suffix(path, ".sigmf-meta") {
        Some(base) => base,
        None => match strip_suffix(path, ".sigmf-data") {
            Some(base) => base,
            None => path.to_owned(),
        },
    };
    (joined(base.as_str(), ".sigmf-meta"), joined(base.as_str(), ".sigmf-data"))
}

/// Given a SigMF-related path (`.sigmf-meta`, `.sigmf-data`, or the bare
/// basename), and whether the two files that [`pair_paths`] names exist, return
/// the `(meta, data)` pair.
pub fn resolve_pair(path: &str, meta_exists: bool, data_exists: bool) -> (r: Result<
    (String, String),
    PairError,
>)
    ensures
        match r {
            Ok((meta, data)) => {
                &&& meta_exists
                &&& data_exists
                &&& meta@ == meta_path(path@)
                &&& data@ == data_path(path@)
            },
            Err(PairError::MetaMissing { meta, path: from }) => {
                &&& !meta_exists
                &&& meta@ == meta_path(path@)
                &&& from@ == path@
            },
            Err(PairError::DataMissing { data, path: from }) => {
                &&& meta_exists
                &&& !data_exists
                &&& data@ == data_path(path@)
                &&& from@ == path@
            },
        },
{
    let (meta, data) = pair_paths(path);
    if !meta_exists {
        return Err(PairError::MetaMissing { meta, path: path.to_owned() });
    }
    if !data_exists {
        return Err(PairError::DataMissing { data, path: path.to_owned() });
    }
    Ok((meta, data))
}

/// `true` if the path looks like a SigMF artefact: meta, data, or a recording
/// basename with both siblings, those that [`pair_paths`] names, present.
pub fn looks_like_sigmf(path: &str, meta_exists: bool, data_exists: bool) -> (r: bool)
    ensures
        r == (text::ends_in(path@, ".sigmf-meta"@) || text::ends_in(path@, ".sigmf-data"@) || (
        meta_exists && data_exists)),
{
    strip_suffix(path, ".sigmf-meta").is_some() || strip_suffix(path, ".sigmf-data").is_some() || (
    meta_exists && data_exists)
}

proof fn lemma_endings_differ(base: Seq<char>)
    ensures
        ".sigmf-meta"@.len() == 11,
        ".sigmf-data"@.len() == 11,
        !text::ends_in(base + ".sigmf-data"@, ".sigmf-meta"@),
{
    reveal_strlit(".sigmf-meta");
    reveal_strlit(".sigmf-data");
    text::lemma_suffix(base, ".sigmf-data"@);
    if text::ends_in(base + ".sigmf-data"@, ".sigmf-meta"@) {
        assert(".sigmf-meta"@[7] == 'm');
        assert(".sigmf-data"@[7] == 'd');
    }
}

/// The path of either file leads to the same recording, and so does their
/// common part, unless it has such an ending of its own.
pub proof fn lemma_three_ways_to_a_recording(base: Seq<char>)
    ensures
        recording(base + ".sigmf-meta"@) == base,
        recording(base + ".sigmf-data"@) == base,
        !text::ends_in(base, ".sigmf-meta"@) && !text::ends_in(base, ".sigmf-data"@) ==> recording(
            base,
        ) == base,
        recording(meta_path(base)) == recording(base),
        recording(data_path(base)) == recording(base),
{
    text::lemma_suffix(base, ".sigmf-meta"@);
    text::lemma_suffix(base, ".sigmf-data"@);
    lemma_endings_differ(base);
    text::lemma_suffix(recording(base), ".sigmf-meta"@);
    text::lemma_suffix(recording(base), ".sigmf-data"@);
    lemma_endings_differ(recording(base));
}

/// Distinct recordings have no file in common.
pub proof fn lemma_recordings_share_no_file(a: Seq<char>, b: Seq<char>)
    ensures
        recording(a) != recording(b) ==> meta_path(a) != meta_path(b) && data_path(a) != data_path(
            b,
        ),
        meta_path(a) != data_path(b),
{
    lemma_three_ways_to_a_recording(recording(a));
    lemma_three_ways_to_a_recording(recording(b));
    lemma_endings_differ(recording(b));
    text::lemma_suffix(recording(a), ".sigmf-meta"@);
}

} // verus!
