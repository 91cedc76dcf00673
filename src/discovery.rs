//! Which files of an artifacts directory hold interface descriptions.

use vstd::prelude::*;

verus! {

/// Suffix of the stem of a debug file next to each artifact (`Token.dbg.json`).
pub const DBG_SUFFIX: &'static str = ".dbg";

/// Whether a file or directory name is hidden: it starts with a dot.
pub fn is_hidden_name(name: &str) -> (r: bool)
    ensures
        r == (name@.len() > 0 && name@[0] == '.'),
{
    name.unicode_len() > 0 && name.get_char(0) == '.'
}

/// Whether `ext` is one of `extensions`.
pub fn has_listed_extension(ext: &str, extensions: &Vec<String>) -> (r: bool)
    ensures
        r == exists|i: int| 0 <= i < extensions@.len() && extensions@[i]@ == ext@,
{
    let e = String::from_str(ext);
    let mut i: usize = 0;
    while i < extensions.len()
        invariant
            i <= extensions.len(),
            e@ == ext@,
            forall|j: int| 0 <= j < i ==> extensions@[j]@ != ext@,
        decreases extensions.len() - i,
    {
        if extensions[i] == e {
            return true;
        }
        i = i + 1;
    }
    false
}

/// Whether a file stem names a debug file: it ends with [`DBG_SUFFIX`] and
/// has more before it.
pub fn is_dbg_stem(stem: &str) -> (r: bool)
    ensures
        r == (stem@.len() > DBG_SUFFIX@.len()
            && stem@.subrange(stem@.len() - DBG_SUFFIX@.len(), stem@.len() as int) == DBG_SUFFIX@),
{
    let n = stem.unicode_len();
    let m = DBG_SUFFIX.unicode_len();
    if n <= m {
        return false;
    }
    let tail = String::from_str(stem.substring_char(n - m, n));
    let suffix = String::from_str(DBG_SUFFIX);
    tail == suffix
}

} // verus!
