//! Target-mode selection: which flavour of guard function the generator
//! emits, derived from the destination file name's suffix.
use vstd::prelude::*;

verus! {

/// The destination flavour: plain functions, annotated functions, or a
/// declaration-only target that the generator refuses to write.
#[derive(Copy, Clone, PartialEq, Eq, Structural, Debug)]
pub enum Extension {
    JS,
    TS,
    DTS,
}

/// `suffix` closes `s`: `s` ends with exactly those bytes.
pub open spec fn ends_with(s: Seq<u8>, suffix: Seq<u8>) -> bool {
    suffix.len() <= s.len() && s.skip(s.len() - suffix.len()) == suffix
}

/// The mode a destination path selects: `.js`, then `.d.ts`, then `.ts`,
/// the first suffix that matches; any other path selects none.
pub open spec fn spec_extension_of(path: Seq<u8>) -> Option<Extension> {
    if ends_with(path, seq!['.' as u8, 'j' as u8, 's' as u8]) {
        Some(Extension::JS)
    } else if ends_with(path, seq!['.' as u8, 'd' as u8, '.' as u8, 't' as u8, 's' as u8]) {
        Some(Extension::DTS)
    } else if ends_with(path, seq!['.' as u8, 't' as u8, 's' as u8]) {
        Some(Extension::TS)
    } else {
        None
    }
}

/// Does `s` end with the bytes of `suffix`?
fn bytes_end_with(s: &Vec<u8>, suffix: &Vec<u8>) -> (r: bool)
    ensures
        r == ends_with(s@, suffix@),
{
    let n = s.len();
    let m = suffix.len();
    if m > n {
        assert(!ends_with(s@, suffix@));
        return false;
    }
    let mut i: usize = 0;
    while i < m
        invariant
            m <= n,
            n == s@.len(),
            m == suffix@.len(),
            i <= m,
            forall|k: int| 0 <= k < i ==> s@[n - m + k] == suffix@[k],
        decreases m - i,
    {
        if s[n - m + i] != suffix[i] {
            assert(s@.skip(n - m)[i as int] != suffix@[i as int]);
            return false;
        }
        i += 1;
    }
    assert(s@.skip(n - m) =~= suffix@);
    true
}

/// The target mode that a destination file path selects, or `None` when the
/// path carries none of the recognized suffixes.
pub fn get_extension(file_path: &Vec<u8>) -> (r: Option<Extension>)
    ensures
        r == spec_extension_of(file_path@),
{
    if bytes_end_with(file_path, &vec!['.' as u8, 'j' as u8, 's' as u8]) {
        Some(Extension::JS)
    } else if bytes_end_with(file_path, &vec!['.' as u8, 'd' as u8, '.' as u8, 't' as u8, 's' as u8]) {
        Some(Extension::DTS)
    } else if bytes_end_with(file_path, &vec!['.' as u8, 't' as u8, 's' as u8]) {
        Some(Extension::TS)
    } else {
        None
    }
}

} // verus!
