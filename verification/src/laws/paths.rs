//! Laws of paths.

use crate::datatype::DataType;
use crate::pair;
use crate::pair::PairError;
use crate::raw;
use crate::text;
use vstd::prelude::*;

verus! {

/// The text is some other and then `suffix`.
pub open spec fn has_ending(s: Seq<char>, suffix: Seq<char>) -> bool {
    exists|base: Seq<char>| s == #[trigger] (base + suffix)
}

/// A text ends in another just where it is some text and then that other.
pub proof fn lemma_ending(s: Seq<char>, suffix: Seq<char>)
    ensures
        text::ends_in(s, suffix) <==> has_ending(s, suffix),
        forall|base: Seq<char>| #[trigger] text::before(base + suffix, suffix) == base,
{
    if text::ends_in(s, suffix) {
        let base = s.take(s.len() - suffix.len());
        assert(s =~= base + suffix);
    }
    if has_ending(s, suffix) {
        let base = choose|base: Seq<char>| s == #[trigger] (base + suffix);
        text::lemma_suffix(base, suffix);
    }
    assert forall|base: Seq<char>| #[trigger] text::before(base + suffix, suffix) == base by {
        text::lemma_suffix(base, suffix);
    }
}

/// The two files of a recording share all but their endings. The path of either
/// leads to both, and any other path is what they share.
pub proof fn lemma_files_of_a_recording(base: Seq<char>)
    ensures
        pair::meta_path(base + ".sigmf-meta"@) == base + ".sigmf-meta"@,
        pair::data_path(base + ".sigmf-meta"@) == base + ".sigmf-data"@,
        pair::meta_path(base + ".sigmf-data"@) == base + ".sigmf-meta"@,
        pair::data_path(base + ".sigmf-data"@) == base + ".sigmf-data"@,
        !has_ending(base, ".sigmf-meta"@) && !has_ending(base, ".sigmf-data"@) ==> pair::meta_path(
            base,
        ) == base + ".sigmf-meta"@ && pair::data_path(base) == base + ".sigmf-data"@,
{
    pair::lemma_three_ways_to_a_recording(base);
    lemma_ending(base, ".sigmf-meta"@);
    lemma_ending(base, ".sigmf-data"@);
}

/// What is said of a file that is not there names it, and the path that it was
/// looked up from.
pub proof fn lemma_missing_file_is_named(file: String, path: String)
    ensures
        (PairError::MetaMissing { meta: file, path }).text() == "SigMF metadata file not found: "@
            + file@ + " (looked up from "@ + path@ + ")"@,
        (PairError::DataMissing { data: file, path }).text() == "SigMF data file not found: "@ + file@
            + " (looked up from "@ + path@ + ")"@,
{
}

/// `bin` is the extension of 16-bit integers, and no other is; any other, and
/// none, is that of floats.
pub proof fn lemma_format_of_extension(extension: Option<Seq<char>>)
    ensures
        raw::format_of_extension(extension) == DataType::Ci16Le <==> extension == Some("bin"@),
        extension != Some("bin"@) ==> raw::format_of_extension(extension) == DataType::Cf32Le,
{
}

proof fn lemma_behind_last(s: Seq<char>, rest: Seq<char>, c: char)
    requires
        !rest.contains(c),
    ensures
        raw::behind_last(s.push(c) + rest, c) == s.len() + 1,
    decreases rest.len(),
{
    let all = s.push(c) + rest;
    if rest.len() == 0 {
        assert(all =~= s.push(c));
    } else {
        assert(all.last() == rest[rest.len() - 1]);
        assert(rest.contains(rest[rest.len() - 1]));
        assert(all.drop_last() =~= s.push(c) + rest.drop_last());
        assert(!rest.drop_last().contains(c)) by {
            if rest.drop_last().contains(c) {
                let i = choose|i: int| 0 <= i < rest.len() - 1 && rest.drop_last()[i] == c;
                assert(rest[i] == c);
            }
        }
        lemma_behind_last(s, rest.drop_last(), c);
    }
}

proof fn lemma_behind_none(s: Seq<char>, c: char)
    requires
        !s.contains(c),
    ensures
        raw::behind_last(s, c) == 0,
    decreases s.len(),
{
    if s.len() > 0 {
        assert(s.contains(s[s.len() - 1]));
        assert(!s.drop_last().contains(c)) by {
            if s.drop_last().contains(c) {
                let i = choose|i: int| 0 <= i < s.len() - 1 && s.drop_last()[i] == c;
                assert(s[i] == c);
            }
        }
        lemma_behind_none(s.drop_last(), c);
    }
}

/// The extension of a name is what stands behind its last dot, if something
/// stands before that. The name `..` has none.
pub proof fn lemma_extension_of_a_name(stem: Seq<char>, extension: Seq<char>)
    requires
        !extension.contains('.'),
    ensures
        stem.len() > 0 && stem.push('.') + extension != seq!['.', '.'] ==> raw::name_extension(
            stem.push('.') + extension,
        ) == Some(extension),
        stem.len() == 0 ==> raw::name_extension(stem.push('.') + extension) is None,
        raw::name_extension(extension) is None,
        raw::name_extension(seq!['.', '.']) is None,
{
    let name = stem.push('.') + extension;
    lemma_behind_last(stem, extension, '.');
    lemma_behind_none(extension, '.');
    assert(name.skip(stem.len() as int + 1) =~= extension);
}

/// The last name of a path is what stands behind its last separator. Separators
/// at its end, and dots behind them, are not part of it.
pub proof fn lemma_last_name(dir: Seq<char>, name: Seq<char>)
    requires
        !name.contains('/'),
    ensures
        name.len() > 0 && name != seq!['.'] ==> raw::file_name(dir.push('/') + name) == name,
        raw::file_name(name) == name,
        raw::file_name(dir.push('/')) == raw::file_name(dir),
        raw::file_name(dir + seq!['/', '.']) == raw::file_name(dir),
{
    if name.len() > 0 && name != seq!['.'] {
        lemma_name_behind(dir, name);
    }
    lemma_name_alone(name);
    assert(dir.push('/').drop_last() =~= dir);
    assert(raw::trimmed(dir.push('/')) == raw::trimmed(dir));
    let dot = dir + seq!['/', '.'];
    assert(dot.last() == '.' && dot[dot.len() - 2] == '/');
    assert(dot.drop_last() =~= dir.push('/'));
    assert(raw::trimmed(dot) == raw::trimmed(dir.push('/')));
}

proof fn lemma_name_alone(name: Seq<char>)
    requires
        !name.contains('/'),
    ensures
        raw::file_name(name) == name,
{
    assert(raw::trimmed(name) == name) by {
        if name.len() > 0 {
            assert(name.contains(name[name.len() - 1]));
        }
        if name.len() >= 2 {
            assert(name.contains(name[name.len() - 2]));
        }
    }
    lemma_behind_none(name, '/');
    assert(name.skip(0) =~= name);
}

proof fn lemma_name_behind(dir: Seq<char>, name: Seq<char>)
    requires
        !name.contains('/'),
        name.len() > 0,
        name != seq!['.'],
    ensures
        raw::file_name(dir.push('/') + name) == name,
{
    let path = dir.push('/') + name;
    let last = name[name.len() - 1];
    assert(name.contains(last));
    assert(path.last() == last);
    assert(raw::trimmed(path) == path) by {
        if name.len() == 1 {
            assert(name =~= seq![last]);
        } else {
            assert(name.contains(name[name.len() - 2]));
            assert(path[path.len() - 2] == name[name.len() - 2]);
        }
    }
    lemma_behind_last(dir, name, '/');
    assert(path.skip(dir.len() as int + 1) =~= name);
}

/// A path means the same everywhere unless it has a backslash, a drive, or two
/// separators at its beginning.
pub proof fn lemma_plain(path: Seq<char>)
    ensures
        raw::plain(path) <==> !path.contains('\\') && !(path.len() >= 2 && path[1] == ':') && !(
        path.len() >= 2 && path[0] == '/' && path[1] == '/'),
{
}

} // verus!
