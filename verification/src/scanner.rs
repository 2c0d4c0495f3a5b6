//! The decisions taken while walking the scanned folders: which directory
//! entries to enter, which files to keep, and when to report progress.

use vstd::prelude::*;

verus! {

broadcast use vstd::string::group_string_axioms;

/// A name is hidden when it starts with a dot.
pub open spec fn hidden(name: Seq<char>) -> bool {
    name.len() > 0 && name[0] == '.'
}

/// Whether a directory entry is hidden, by its file name; a name that is not
/// valid Unicode (`None`) counts as not hidden.
pub fn is_hidden(name: Option<&str>) -> (r: bool)
    ensures
        r == (name matches Some(n) && hidden(n@)),
{
    match name {
        None => false,
        Some(n) => {
            let mut chars = n.chars();
            match chars.next() {
                Some(c) => c == '.',
                None => false,
            }
        },
    }
}

/// Whether the walk enters (or reports) an entry at `depth` below a scanned
/// folder: hidden entries are skipped unless hidden files are wanted, and a
/// scanned folder itself is always entered.
pub fn enters(include_hidden: bool, depth: usize, is_hidden: bool) -> (r: bool)
    ensures
        r == (include_hidden || depth == 0 || !is_hidden),
{
    include_hidden || depth == 0 || !is_hidden
}

/// Whether a file of `size` bytes is kept, given the smallest size wanted.
pub fn admits_size(size: u64, min_file_size: u64) -> (r: bool)
    ensures
        r == (size >= min_file_size),
{
    size >= min_file_size
}

/// Whether to report progress after `found` files: every hundred files.
pub fn reports_progress(found: usize) -> (r: bool)
    ensures
        r == (found % 100 == 0),
{
    found % 100 == 0
}

} // verus!
