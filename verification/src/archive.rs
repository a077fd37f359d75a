//! Archive path bookkeeping.
//!
//! Packaging walks an output directory and stores every entry under its
//! path relative to that directory; extraction recreates entry paths under
//! the archive's parent directory.  The path derivations live here; reading
//! and writing the archive bytes stays outside the library.

use vstd::prelude::*;
use vstd::string::StrSliceExecFns;
use vstd::string::StringExecFns;
use crate::file_ops::{last_index_of, lemma_last_index_bounds, path_file_name};

verus! {

/// Errors of archive extraction and packaging.
#[derive(Debug, Clone, PartialEq)]
pub enum ArchiveError {
    /// A failure while extracting an archive, described by a message.
    ExtractError(String),
    /// A failure while packaging a directory, described by a message.
    PackageError(String),
}

/// The archive path derived from a directory path: the directory's
/// extension, if any, replaced by the archive extension.
pub open spec fn archive_output_path(p: Seq<char>) -> Seq<char> {
    let name = path_file_name(p);
    let d = last_index_of(name, '.');
    if d <= 0 {
        p + ".zip"@
    } else {
        p.subrange(0, p.len() - name.len() + d) + ".zip"@
    }
}

/// Whether `full` lies under `base`: it is `base` itself or a path below
/// it.
pub open spec fn is_under(base: Seq<char>, full: Seq<char>) -> bool {
    full == base || (full.len() > base.len() && full.subrange(0, base.len() as int) == base
        && full[base.len() as int] == '/')
}

/// The part of `full` below `base`; empty for `base` itself.
pub open spec fn relative_part(base: Seq<char>, full: Seq<char>) -> Seq<char> {
    if full == base {
        Seq::empty()
    } else {
        full.subrange(base.len() as int + 1, full.len() as int)
    }
}

/// Derives the archive path for a packaged directory by extension
/// substitution on the directory path.
pub fn zip_output_path(folder_path: &str) -> (r: String)
    ensures
        r@ == archive_output_path(folder_path@),
{
    let n = folder_path.unicode_len();
    let slash = crate::file_ops::find_last_char(folder_path, '/');
    let dot = crate::file_ops::find_last_char(folder_path, '.');
    let name_start: usize = match slash {
        Some(i) => i + 1,
        None => 0,
    };
    proof {
        lemma_last_index_bounds(folder_path@, '/');
        lemma_last_index_bounds(folder_path@, '.');
        crate::file_ops::lemma_last_index_suffix(folder_path@, name_start as int, '.');
    }
    let stem_end: usize = match dot {
        Some(d) => {
            if d > name_start {
                d
            } else {
                n
            }
        },
        None => n,
    };
    let stem = folder_path.substring_char(0, stem_end);
    let out = String::from_str(stem).concat(".zip");
    proof {
        if stem_end == n {
            assert(folder_path@.subrange(0, n as int) =~= folder_path@);
        }
    }
    out
}

/// Computes an entry's path relative to the directory being packaged.
/// Fails when `full` does not lie under `base`.
pub fn relative_path_of(base: &str, full: &str) -> (r: Result<String, ArchiveError>)
    ensures
        r is Ok <==> is_under(base@, full@),
        r matches Ok(rel) ==> rel@ == relative_part(base@, full@),
        r matches Err(e) ==> e matches ArchiveError::PackageError(m) && m@ == "path not under base: "@
            + full@,
{
    let nb = base.unicode_len();
    let nf = full.unicode_len();
    if nf < nb {
        proof {
            assert(!is_under(base@, full@));
        }
        let m = String::from_str("path not under base: ").concat(full);
        return Err(ArchiveError::PackageError(m));
    }
    let mut i: usize = 0;
    while i < nb
        invariant
            nb == base@.len(),
            nf == full@.len(),
            nb <= nf,
            i <= nb,
            forall|k: int| 0 <= k < i ==> base@[k] == full@[k],
        decreases nb - i,
    {
        if base.get_char(i) != full.get_char(i) {
            proof {
                assert(full@ != base@);
                if full@.len() > base@.len() && full@.subrange(0, nb as int) == base@ {
                    assert(full@.subrange(0, nb as int)[i as int] == full@[i as int]);
                    assert(false);
                }
                assert(!is_under(base@, full@));
            }
            let m = String::from_str("path not under base: ").concat(full);
            return Err(ArchiveError::PackageError(m));
        }
        i = i + 1;
    }
    if nf == nb {
        proof {
            assert(full@ =~= base@);
        }
        return Ok(String::new());
    }
    if full.get_char(nb) == '/' {
        proof {
            assert(full@.subrange(0, nb as int) =~= base@);
        }
        let rel = full.substring_char(nb + 1, nf);
        Ok(String::from_str(rel))
    } else {
        proof {
            if full@ == base@ {
                assert(false);
            }
            assert(!is_under(base@, full@));
        }
        let m = String::from_str("path not under base: ").concat(full);
        Err(ArchiveError::PackageError(m))
    }
}

} // verus!
