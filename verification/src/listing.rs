//! Choosing among the entries of a directory, and of a walk through a tree.

use vstd::prelude::*;
use vstd::string::*;
use crate::error::SortError;
use crate::rank::FileEntry;
use crate::sorted::texts;

verus! {

/// One entry of a directory as the file system reports it.
#[derive(Clone, Debug)]
pub struct DirItem {
    /// The entry's name in its directory.
    pub name: String,
    /// The entry's whole path.
    pub path: String,
    /// Whether it is a regular file.
    pub is_file: bool,
    /// Whether it is a directory.
    pub is_dir: bool,
}

/// A name that begins with `.`.
pub open spec fn hidden(name: Seq<char>) -> bool {
    name.len() > 0 && name[0] == '.'
}

/// Whether an entry of that name counts: hidden ones only on request.
pub open spec fn visible(name: Seq<char>, include_dot_files: bool) -> bool {
    include_dot_files || !hidden(name)
}

/// A file as the directory it lies in and its name.
pub open spec fn file_pairs(files: Seq<FileEntry>) -> Seq<(Seq<char>, Seq<char>)> {
    Seq::new(files.len(), |i: int| (files[i].parent@, files[i].name@))
}

/// The regular files that count among the first `n` of `items`, in order,
/// each as a file of the directory `path`.
pub open spec fn visible_files(
    path: Seq<char>,
    items: Seq<DirItem>,
    include_dot_files: bool,
    n: int,
) -> Seq<(Seq<char>, Seq<char>)>
    decreases n,
{
    if n <= 0 {
        Seq::empty()
    } else {
        let rest = visible_files(path, items, include_dot_files, n - 1);
        if items[n - 1].is_file && visible(items[n - 1].name@, include_dot_files) {
            rest.push((path, items[n - 1].name@))
        } else {
            rest
        }
    }
}

/// The paths of the directories that count among the first `n` of `items`,
/// in order.
pub open spec fn visible_dirs(items: Seq<DirItem>, include_dot_files: bool, n: int) -> Seq<
    Seq<char>,
>
    decreases n,
{
    if n <= 0 {
        Seq::empty()
    } else {
        let rest = visible_dirs(items, include_dot_files, n - 1);
        if items[n - 1].is_dir && visible(items[n - 1].name@, include_dot_files) {
            rest.push(items[n - 1].path@)
        } else {
            rest
        }
    }
}

/// Whether a name begins with `.`.
pub fn is_hidden(name: &str) -> (r: bool)
    ensures
        r == hidden(name@),
{
    name.unicode_len() > 0 && name.get_char(0) == '.'
}

/// The path separator of the platform, which is Windows, Unix or neither.
pub fn get_os_sep(windows: bool, unix: bool) -> (r: Result<String, SortError>)
    ensures
        windows ==> r.is_ok() && r.unwrap()@ == seq!['\\'],
        !windows && unix ==> r.is_ok() && r.unwrap()@ == seq!['/'],
        !windows && !unix ==> r == Err::<String, SortError>(SortError::UnsupportedOs),
{
    proof {
        reveal_strlit("\\");
        reveal_strlit("/");
        assert("\\"@ =~= seq!['\\']);
        assert("/"@ =~= seq!['/']);
    }
    if windows {
        Ok(String::from_str("\\"))
    } else if unix {
        Ok(String::from_str("/"))
    } else {
        Err(SortError::UnsupportedOs)
    }
}

/// The regular files among the entries `items` of the directory `path`, in
/// the order given. Hidden ones are left out unless `include_dot_files`.
pub fn get_files_in_dir(path: &str, items: &Vec<DirItem>, include_dot_files: bool) -> (r: Vec<
    FileEntry,
>)
    ensures
        file_pairs(r@) == visible_files(path@, items@, include_dot_files, items@.len() as int),
{
    let mut out: Vec<FileEntry> = Vec::new();
    let n: usize = items.len();
    let mut i: usize = 0;
    assert(file_pairs(out@) =~= visible_files(path@, items@, include_dot_files, 0));
    while i < n
        invariant
            i <= n,
            n == items@.len(),
            file_pairs(out@) == visible_files(path@, items@, include_dot_files, i as int),
        decreases n - i,
    {
        let ghost before = file_pairs(out@);
        if items[i].is_file && (include_dot_files || !is_hidden(items[i].name.as_str())) {
            out.push(FileEntry { parent: String::from_str(path), name: items[i].name.clone() });
            assert(file_pairs(out@) =~= before.push((path@, items@[i as int].name@)));
        }
        i = i + 1;
    }
    out
}

/// The directories of a walk that starts at `root`: `root` itself first,
/// whatever its name, then the directories among the entries `below` it, in
/// the order of the walk. Below the root hidden directories are left out
/// unless `include_dot_files`; what lies below a hidden directory is judged
/// by its own name.
pub fn get_dirs_recursively(root: &str, below: &Vec<DirItem>, include_dot_files: bool) -> (r: Vec<
    String,
>)
    ensures
        texts(r@) == seq![root@] + visible_dirs(below@, include_dot_files, below@.len() as int),
{
    let mut out: Vec<String> = Vec::new();
    out.push(String::from_str(root));
    let n: usize = below.len();
    let mut i: usize = 0;
    assert(texts(out@) =~= seq![root@] + visible_dirs(below@, include_dot_files, 0));
    while i < n
        invariant
            i <= n,
            n == below@.len(),
            texts(out@) == seq![root@] + visible_dirs(below@, include_dot_files, i as int),
        decreases n - i,
    {
        let ghost before = texts(out@);
        if below[i].is_dir && (include_dot_files || !is_hidden(below[i].name.as_str())) {
            out.push(below[i].path.clone());
            assert(texts(out@) =~= before.push(below@[i as int].path@));
            assert(before.push(below@[i as int].path@) =~= seq![root@] + visible_dirs(
                below@,
                include_dot_files,
                i + 1,
            ));
        }
        i = i + 1;
    }
    out
}

/// The root of a walk is always among its directories, and it is the first.
pub proof fn lemma_root_is_listed(root: Seq<char>, below: Seq<DirItem>, include_dot_files: bool)
    ensures
        (seq![root] + visible_dirs(below, include_dot_files, below.len() as int))[0] == root,
        (seq![root] + visible_dirs(below, include_dot_files, below.len() as int)).contains(root),
{
    let all = seq![root] + visible_dirs(below, include_dot_files, below.len() as int);
    assert(all[0] == root);
}

} // verus!
