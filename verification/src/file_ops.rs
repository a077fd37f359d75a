//! Path handling for spreadsheet files.
//!
//! Paths are plain strings whose components are separated by `/`.  The file
//! name is the part after the last separator; its extension is the part
//! after the last dot, provided that dot is not the file name's first
//! character.  Two spreadsheet extensions are recognized for reading, and
//! output paths always carry the newer one.

use vstd::prelude::*;
use vstd::string::StrSliceExecFns;
use vstd::string::StringExecFns;

verus! {

/// Errors of path handling and directory bookkeeping.
#[derive(Debug, Clone, PartialEq)]
pub enum FileOpsError {
    /// The source path holds no usable file name.
    InvalidFilePath(String),
    /// An input/output failure, described by a message.
    IoError(String),
}

/// The index of the last occurrence of `c` in `s`, or -1 when `s` does not
/// hold `c`.
pub open spec fn last_index_of(s: Seq<char>, c: char) -> int
    decreases s.len(),
{
    if s.len() == 0 {
        -1
    } else if s[s.len() - 1] == c {
        s.len() - 1
    } else {
        last_index_of(s.drop_last(), c)
    }
}

/// The file name of a path: everything after the last separator.
pub open spec fn path_file_name(p: Seq<char>) -> Seq<char> {
    p.subrange(last_index_of(p, '/') + 1, p.len() as int)
}

/// The extension of a path's file name: the part after the last dot, if
/// that dot is neither absent nor the name's first character.
pub open spec fn path_extension(p: Seq<char>) -> Option<Seq<char>> {
    let name = path_file_name(p);
    let d = last_index_of(name, '.');
    if d <= 0 {
        None
    } else {
        Some(name.subrange(d + 1, name.len() as int))
    }
}

/// The stem of a path's file name: the name without its extension.
pub open spec fn path_stem(p: Seq<char>) -> Seq<char> {
    let name = path_file_name(p);
    let d = last_index_of(name, '.');
    if d <= 0 {
        name
    } else {
        name.subrange(0, d)
    }
}

/// Whether a path carries one of the two recognized spreadsheet extensions.
pub open spec fn has_excel_ext(p: Seq<char>) -> bool {
    path_extension(p) == Some("xls"@) || path_extension(p) == Some("xlsx"@)
}

pub proof fn lemma_last_index_bounds(s: Seq<char>, c: char)
    ensures
        -1 <= last_index_of(s, c) < s.len(),
        last_index_of(s, c) >= 0 ==> s[last_index_of(s, c)] == c,
    decreases s.len(),
{
    if s.len() > 0 && s[s.len() - 1] != c {
        lemma_last_index_bounds(s.drop_last(), c);
    }
}

/// The last occurrence of `c` in the suffix of `s` from `from` on.
pub proof fn lemma_last_index_suffix(s: Seq<char>, from: int, c: char)
    requires
        0 <= from <= s.len(),
    ensures
        last_index_of(s, c) >= from ==> last_index_of(
            s.subrange(from, s.len() as int),
            c,
        ) == last_index_of(s, c) - from,
        last_index_of(s, c) < from ==> last_index_of(s.subrange(from, s.len() as int), c) == -1,
    decreases s.len(),
{
    lemma_last_index_bounds(s, c);
    if from == s.len() {
    } else {
        let q = s.subrange(from, s.len() as int);
        if s[s.len() - 1] == c {
        } else {
            assert(q[q.len() - 1] == s[s.len() - 1]);
            assert(q.drop_last() =~= s.drop_last().subrange(from, s.drop_last().len() as int));
            lemma_last_index_suffix(s.drop_last(), from, c);
        }
    }
}

/// Finds the last occurrence of `c` in `s`, if any.
pub(crate) fn find_last_char(s: &str, c: char) -> (r: Option<usize>)
    ensures
        match r {
            Some(i) => last_index_of(s@, c) == i as int && i < s@.len(),
            None => last_index_of(s@, c) == -1,
        },
{
    let n = s.unicode_len();
    let mut i: usize = 0;
    let mut found: Option<usize> = None;
    while i < n
        invariant
            n == s@.len(),
            i <= n,
            match found {
                Some(k) => last_index_of(s@.subrange(0, i as int), c) == k as int && k < i,
                None => last_index_of(s@.subrange(0, i as int), c) == -1,
            },
        decreases n - i,
    {
        let ch = s.get_char(i);
        proof {
            assert(s@.subrange(0, i as int + 1).drop_last() =~= s@.subrange(0, i as int));
            assert(s@.subrange(0, i as int + 1)[i as int] == s@[i as int]);
        }
        if ch == c {
            found = Some(i);
        }
        i = i + 1;
    }
    proof {
        assert(s@.subrange(0, n as int) =~= s@);
    }
    found
}

/// Whether the file at `file_path` carries one of the two recognized
/// spreadsheet extensions.
pub fn has_excel_extension(file_path: &str) -> (r: bool)
    ensures
        r == has_excel_ext(file_path@),
{
    proof {
        reveal_strlit("xls");
        reveal_strlit("xlsx");
    }
    let n = file_path.unicode_len();
    let slash = find_last_char(file_path, '/');
    let dot = find_last_char(file_path, '.');
    let name_start: usize = match slash {
        Some(i) => i + 1,
        None => 0,
    };
    proof {
        lemma_last_index_bounds(file_path@, '/');
        lemma_last_index_bounds(file_path@, '.');
        lemma_last_index_suffix(file_path@, name_start as int, '.');
    }
    let ext_start: usize = match dot {
        Some(d) => {
            if d > name_start {
                d + 1
            } else {
                return false;
            }
        },
        None => {
            return false;
        },
    };
    let ghost p = file_path@;
    let ghost ext = path_extension(p).unwrap();
    proof {
        assert(path_extension(p) is Some);
        assert(ext =~= p.subrange(ext_start as int, n as int));
        assert("xls"@.len() == 3 && "xls"@[0] == 'x' && "xls"@[1] == 'l' && "xls"@[2] == 's');
        assert("xlsx"@.len() == 4 && "xlsx"@[0] == 'x' && "xlsx"@[1] == 'l' && "xlsx"@[2] == 's'
            && "xlsx"@[3] == 'x');
    }
    let len = n - ext_start;
    if len == 3 {
        let c0 = file_path.get_char(ext_start);
        let c1 = file_path.get_char(ext_start + 1);
        let c2 = file_path.get_char(ext_start + 2);
        let r = c0 == 'x' && c1 == 'l' && c2 == 's';
        proof {
            assert(ext.len() == 3);
            assert(ext[0] == c0 && ext[1] == c1 && ext[2] == c2);
            if r {
                assert(ext =~= "xls"@);
            } else {
                assert(ext != "xls"@);
            }
            assert(ext != "xlsx"@);
        }
        r
    } else if len == 4 {
        let c0 = file_path.get_char(ext_start);
        let c1 = file_path.get_char(ext_start + 1);
        let c2 = file_path.get_char(ext_start + 2);
        let c3 = file_path.get_char(ext_start + 3);
        let r = c0 == 'x' && c1 == 'l' && c2 == 's' && c3 == 'x';
        proof {
            assert(ext.len() == 4);
            assert(ext[0] == c0 && ext[1] == c1 && ext[2] == c2 && ext[3] == c3);
            if r {
                assert(ext =~= "xlsx"@);
            } else {
                assert(ext != "xlsx"@);
            }
            assert(ext != "xls"@);
        }
        r
    } else {
        proof {
            assert(ext.len() != 3 && ext.len() != 4);
            assert(ext != "xls"@);
            assert(ext != "xlsx"@);
        }
        false
    }
}

/// Derives the output path for a processed file: the source file's stem
/// under `output_directory`, always with the newer spreadsheet extension.
/// Fails when the source path holds no file name to take a stem from.
pub fn generate_output_file_path(source_file_path: &str, output_directory: &str) -> (r: Result<
    String,
    FileOpsError,
>)
    ensures
        r is Ok <==> path_stem(source_file_path@).len() > 0,
        r matches Ok(out) ==> out@ == output_directory@ + "/"@ + path_stem(source_file_path@)
            + ".xlsx"@,
        r matches Err(e) ==> e matches FileOpsError::InvalidFilePath(msg) && msg@ == "no file name in path: "@
            + source_file_path@,
{
    let n = source_file_path.unicode_len();
    let slash = find_last_char(source_file_path, '/');
    let dot = find_last_char(source_file_path, '.');
    let name_start: usize = match slash {
        Some(i) => i + 1,
        None => 0,
    };
    proof {
        lemma_last_index_bounds(source_file_path@, '/');
        lemma_last_index_bounds(source_file_path@, '.');
        lemma_last_index_suffix(source_file_path@, name_start as int, '.');
    }
    let stem_end: usize = match dot {
        Some(d) => {
            if d > name_start {
                d
            } else {
                n
            }
        },
        None => n,
    };
    let ghost p = source_file_path@;
    proof {
        assert(path_stem(p) =~= p.subrange(name_start as int, stem_end as int));
    }
    if stem_end == name_start {
        let msg = String::from_str("no file name in path: ").concat(source_file_path);
        return Err(FileOpsError::InvalidFilePath(msg));
    }
    let stem = source_file_path.substring_char(name_start, stem_end);
    let mut out = String::from_str(output_directory);
    out.append("/");
    out.append(stem);
    out.append(".xlsx");
    Ok(out)
}

/// The file names as character sequences.
pub open spec fn names_view(s: Seq<String>) -> Seq<Seq<char>> {
    s.map_values(|x: String| x@)
}

/// Whether a file name carries a recognized spreadsheet extension.
pub open spec fn is_excel_name() -> spec_fn(Seq<char>) -> bool {
    |n: Seq<char>| has_excel_ext(n)
}

/// Selects, in order, the file names that carry a recognized spreadsheet
/// extension.
pub fn filter_excel_names(names: &Vec<String>) -> (r: Vec<String>)
    ensures
        names_view(r@) == names_view(names@).filter(is_excel_name()),
{
    let mut out: Vec<String> = Vec::new();
    let mut i: usize = 0;
    while i < names.len()
        invariant
            i <= names.len(),
            names_view(out@) == names_view(names@.subrange(0, i as int)).filter(is_excel_name()),
        decreases names.len() - i,
    {
        let ghost prefix = names_view(names@.subrange(0, i as int));
        let ghost name = names@[i as int]@;
        proof {
            reveal_with_fuel(Seq::<Seq<char>>::filter, 2);
            assert(names_view(names@.subrange(0, i as int + 1)) =~= prefix.push(name));
            assert(prefix.push(name).drop_last() =~= prefix);
            assert(prefix.push(name).last() == name);
            if is_excel_name()(name) {
                assert(prefix.push(name).filter(is_excel_name()) =~= prefix.filter(
                    is_excel_name(),
                ).push(name));
            } else {
                assert(prefix.push(name).filter(is_excel_name()) =~= prefix.filter(
                    is_excel_name(),
                ));
            }
        }
        if has_excel_extension(names[i].as_str()) {
            let ghost before = out@;
            out.push(names[i].clone());
            proof {
                assert(names_view(out@) =~= names_view(before).push(name));
            }
        }
        i = i + 1;
    }
    proof {
        assert(names@.subrange(0, names@.len() as int) =~= names@);
    }
    out
}

} // verus!
