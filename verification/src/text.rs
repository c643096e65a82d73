//! Text operations.

use vstd::prelude::*;
use vstd::string::*;

verus! {

/// `s` ends in `suffix`.
pub open spec fn ends_in(s: Seq<char>, suffix: Seq<char>) -> bool {
    s.len() >= suffix.len() && s.skip(s.len() - suffix.len()) == suffix
}

/// `s` without the `suffix` that it ends in.
pub open spec fn before(s: Seq<char>, suffix: Seq<char>) -> Seq<char> {
    s.take(s.len() - suffix.len())
}

/// Whether two texts are the same.
pub fn same_text(a: &str, b: &str) -> (r: bool)
    ensures
        r == (a@ == b@),
{
    a.to_owned() == b.to_owned()
}

/// One text after another.
pub fn joined(a: &str, b: &str) -> (r: String)
    ensures
        r@ == a@ + b@,
{
    let mut r: String = a.to_owned();
    r.append(b);
    r
}

/// What stands before the `suffix`, where `s` ends in it.
pub fn strip_suffix(s: &str, suffix: &str) -> (r: Option<String>)
    ensures
        match r {
            Some(base) => ends_in(s@, suffix@) && base@ == before(s@, suffix@),
            None => !ends_in(s@, suffix@),
        },
{
    let all: usize = s.unicode_len();
    let end: usize = suffix.unicode_len();
    if all < end {
        return None;
    }
    let tail = s.substring_char(all - end, all);
    assert(tail@ == s@.skip(s@.len() - suffix@.len()));
    if same_text(tail, suffix) {
        let base = s.substring_char(0, all - end);
        assert(base@ == before(s@, suffix@));
        Some(base.to_owned())
    } else {
        None
    }
}

/// Text that ends in a suffix is what stands before it and then the suffix.
pub proof fn lemma_suffix(base: Seq<char>, suffix: Seq<char>)
    ensures
        ends_in(base + suffix, suffix),
        before(base + suffix, suffix) == base,
{
    assert((base + suffix).skip(base.len() as int) =~= suffix);
    assert((base + suffix).take(base.len() as int) =~= base);
}

} // verus!
