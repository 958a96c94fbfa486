//! What the directory walk keeps: which directories it enters and which
//! files it collects (dotfiles and dot-directories are skipped). Reading
//! the directories is left to the caller.
use vstd::prelude::*;
use crate::lang::{CODE_EXTS, RESOURCE_EXTS, SKIP_DIRS};
use crate::text::str_eq;
use crate::paths::{ext_of, path_extension};
use crate::types::{ScanOptions, strings_view};
use vstd::string::StrSliceExecFns;

verus! {

pub open spec fn table_view(table: Seq<&'static str>) -> Seq<Seq<char>> {
    table.map_values(|s: &'static str| s@)
}

/// Whether `name` is one of the entries of `table`.
fn in_table(table: &[&'static str], name: &str) -> (res: bool)
    ensures
        res == table_view(table@).contains(name@),
{
    let ghost tv = table_view(table@);
    let mut i: usize = 0;
    while i < table.len()
        invariant
            i <= table@.len(),
            tv == table_view(table@),
            forall|t: int| 0 <= t < i ==> tv[t] != name@,
        decreases table@.len() - i,
    {
        if str_eq(table[i], name) {
            assert(tv[i as int] == name@);
            return true;
        }
        i += 1;
    }
    assert forall|t: int| 0 <= t < tv.len() implies tv[t] != name@ by {}
    false
}

/// Whether `name` is one of `list`.
fn in_strings(list: &Vec<String>, name: &str) -> (res: bool)
    ensures
        res == strings_view(list@).contains(name@),
{
    let ghost lv = strings_view(list@);
    let mut i: usize = 0;
    while i < list.len()
        invariant
            i <= list@.len(),
            lv == strings_view(list@),
            forall|t: int| 0 <= t < i ==> lv[t] != name@,
        decreases list@.len() - i,
    {
        if str_eq(list[i].as_str(), name) {
            assert(lv[i as int] == name@);
            return true;
        }
        i += 1;
    }
    assert forall|t: int| 0 <= t < lv.len() implies lv[t] != name@ by {}
    false
}

/// A directory is not entered when its name is a built-in or extra skipped
/// name, or starts with a dot.
pub open spec fn skips_directory(name: Seq<char>, extra_skip_dirs: Seq<Seq<char>>) -> bool {
    ||| table_view(SKIP_DIRS@).contains(name)
    ||| extra_skip_dirs.contains(name)
    ||| (name.len() > 0 && name[0] == '.')
}

/// Whether the walk leaves out a directory called `name`.
pub fn skip_directory(name: &str, opts: &ScanOptions) -> (res: bool)
    ensures
        res == skips_directory(name@, opts@.extra_skip_dirs),
{
    in_table(&SKIP_DIRS, name) || in_strings(&opts.extra_skip_dirs, name) || (!name.is_empty()
        && name.get_char(0) == '.')
}

/// Files are collected by extension: source files and resource files.
pub open spec fn collects_extension(ext: Seq<char>) -> bool {
    table_view(CODE_EXTS@).contains(ext) || table_view(RESOURCE_EXTS@).contains(ext)
}

/// Whether the walk collects a file with extension `ext`.
pub fn is_collected_extension(ext: &str) -> (res: bool)
    ensures
        res == collects_extension(ext@),
{
    in_table(&CODE_EXTS, ext) || in_table(&RESOURCE_EXTS, ext)
}

/// A file is collected when its name does not start with a dot and its
/// extension is one of the collected ones.
pub open spec fn collects_file(name: Seq<char>) -> bool {
    &&& !(name.len() > 0 && name[0] == '.')
    &&& match path_extension(name) {
        Some(e) => collects_extension(e),
        None => false,
    }
}

/// Whether the walk collects a file called `name`.
pub fn is_collected_file(name: &str) -> (res: bool)
    ensures
        res == collects_file(name@),
{
    if !name.is_empty() && name.get_char(0) == '.' {
        return false;
    }
    match ext_of(name) {
        Some(e) => is_collected_extension(e),
        None => false,
    }
}

} // verus!
