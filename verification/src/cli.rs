//! Where the measurements are written: the output path given on the
//! command line, read as a file or as a directory.
use vstd::prelude::*;
use vstd::string::*;

use crate::event_log::{has_extension, law_extension_of_file_name, path_has_extension};
use crate::text::{chars_of, copy_range, push_char, string_from_chars, text_of};

verus! {

/// The path ends with a separator (`/` or `\`).
pub open spec fn ends_with_separator(s: Seq<char>) -> bool {
    s.len() > 0 && (s.last() == '/' || s.last() == '\\')
}

/// Whether the path ends with a separator.
pub fn ends_with_path_separator(path: &str) -> (b: bool)
    ensures
        b == ends_with_separator(path@),
{
    let v = chars_of(path);
    let len = v.len();
    len > 0 && (v[len - 1] == '/' || v[len - 1] == '\\')
}

/// An output path names a directory when it is an existing directory, ends
/// with a separator, or has no extension.
pub open spec fn spec_treat_as_directory(path: Seq<char>, is_dir: bool) -> bool {
    is_dir || ends_with_separator(path) || !has_extension(path)
}

/// Whether the output path names a directory; `is_dir` tells whether it is
/// an existing directory.
pub fn should_treat_as_directory(path: &str, is_dir: bool) -> (b: bool)
    ensures
        b == spec_treat_as_directory(path@, is_dir),
{
    is_dir || ends_with_path_separator(path) || !path_has_extension(path)
}

/// `base` joined with `rest` (`PathBuf::push` on Unix): an absolute `rest`
/// replaces `base`; otherwise a separator is put between them unless `base`
/// is empty or already ends with one.
pub open spec fn spec_join_path(base: Seq<char>, rest: Seq<char>) -> Seq<char> {
    if rest.len() > 0 && rest[0] == '/' {
        rest
    } else if base.len() > 0 && base.last() != '/' {
        base + seq!['/'] + rest
    } else {
        base + rest
    }
}

/// `base` joined with `rest`.
pub fn join_path(base: &str, rest: &str) -> (r: String)
    ensures
        r@ == spec_join_path(base@, rest@),
{
    let b = chars_of(base);
    let t = chars_of(rest);
    if t.len() > 0 && t[0] == '/' {
        return rest.to_owned();
    }
    let mut r = base.to_owned();
    if b.len() > 0 && b[b.len() - 1] != '/' {
        push_char(&mut r, '/');
    }
    r.append(rest);
    r
}

/// The default name of the CSV file for a start time written as `stamp`.
pub open spec fn spec_default_output_filename(stamp: Seq<char>) -> Seq<char> {
    "router-monitor-"@ + stamp + ".csv"@
}

/// The default name of the CSV file, such as `router-monitor-20260613-193000.csv`.
pub fn default_output_filename(stamp: &str) -> (r: String)
    ensures
        r@ == spec_default_output_filename(stamp@),
{
    let mut r = "router-monitor-".to_owned();
    r.append(stamp);
    r.append(".csv");
    r
}

/// The message when `~` cannot be expanded.
pub open spec fn home_missing_text() -> Seq<char> {
    "Cannot expand '~' because the HOME environment variable is not set."@
}

/// The path with a leading `~` replaced by the home directory: `~` alone is
/// the home directory, `~/rest` is `rest` joined to it, anything else is
/// left as it is. An error when `~` must be expanded and there is no home.
pub open spec fn spec_expand_tilde(path: Seq<char>, home: Option<Seq<char>>) -> Result<
    Seq<char>,
    Seq<char>,
> {
    if path == "~"@ || (path.len() >= 2 && path[0] == '~' && path[1] == '/') {
        match home {
            None => Err(home_missing_text()),
            Some(h) => if path == "~"@ {
                Ok(h)
            } else {
                Ok(spec_join_path(h, path.subrange(2, path.len() as int)))
            },
        }
    } else {
        Ok(path)
    }
}

/// Expands a leading `~` with the home directory `home`.
pub fn expand_tilde(path: &str, home: Option<&str>) -> (r: Result<String, String>)
    ensures
        match r {
            Ok(p) => spec_expand_tilde(path@, text_of(home)) == Ok::<Seq<char>, Seq<char>>(p@),
            Err(m) => spec_expand_tilde(path@, text_of(home)) == Err::<Seq<char>, Seq<char>>(m@),
        },
{
    proof {
        reveal_strlit("~");
    }
    let v = chars_of(path);
    let alone = v.len() == 1 && v[0] == '~';
    let prefixed = v.len() >= 2 && v[0] == '~' && v[1] == '/';
    assert(alone == (path@ == "~"@)) by {
        if path@ == "~"@ {
            assert(v@.len() == 1);
        }
        if alone {
            assert(v@ =~= "~"@);
        }
    }
    if !alone && !prefixed {
        return Ok(path.to_owned());
    }
    match home {
        None => Err("Cannot expand '~' because the HOME environment variable is not set.".to_owned()),
        Some(h) => {
            if alone {
                Ok(h.to_owned())
            } else {
                let rest = string_from_chars(&copy_range(&v, 2, v.len()));
                Ok(join_path(h, rest.as_str()))
            }
        },
    }
}

/// Where the measurements go.
#[derive(Debug, Clone, PartialEq, Eq)]
pub enum OutputTarget {
    /// A file, used as it is.
    File(String),
    /// A directory to create if needed, and the file inside it.
    Directory { dir: String, file: String },
}

/// Reads the output path: a directory receives a file named
/// `default_file_name`; any other path is the file itself.
pub fn resolve_output_path(path: &str, is_dir: bool, default_file_name: &str) -> (r: OutputTarget)
    ensures
        match r {
            OutputTarget::File(f) => !spec_treat_as_directory(path@, is_dir) && f@ == path@,
            OutputTarget::Directory { dir, file } => spec_treat_as_directory(path@, is_dir) && dir@
                == path@ && file@ == spec_join_path(path@, default_file_name@),
        },
{
    if should_treat_as_directory(path, is_dir) {
        OutputTarget::Directory {
            dir: path.to_owned(),
            file: join_path(path, default_file_name),
        }
    } else {
        OutputTarget::File(path.to_owned())
    }
}

/// Whether the output path names a directory depends on its file name
/// only: for a file name `name` (no `/`, not empty, not `.`) under any
/// directory text `dir`, `dir/name` is a directory exactly when `name`
/// alone is one; so `../logs` names a directory, as `logs` does.
pub proof fn law_directory_by_file_name(dir: Seq<char>, name: Seq<char>, is_dir: bool)
    requires
        name.len() > 0,
        name != seq!['.'],
        forall|k: int| 0 <= k < name.len() ==> #[trigger] name[k] != '/',
    ensures
        spec_treat_as_directory(dir + seq!['/'] + name, is_dir) == spec_treat_as_directory(
            name,
            is_dir,
        ),
{
    law_extension_of_file_name(dir, name);
    let s = dir + seq!['/'] + name;
    assert(s.last() == name.last());
}

} // verus!
