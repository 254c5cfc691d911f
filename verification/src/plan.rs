//! What sorting a directory comes to: the folders to create, where each file
//! goes, and the order of the steps.

use vstd::prelude::*;
use vstd::string::*;
use crate::error::SortError;
use crate::rank::{all_same, classify_all, file_tokens, rank_tokens, FileEntry, RankedFolderMap};
use crate::rank::lemma_ranks_is_ranking;
use crate::sorted::{sorted_tokens, texts};
use crate::token::{lemma_lex_irreflexive, lex_lt};

verus! {

/// A path made of a directory, the separator and a name in it.
pub open spec fn joined(dir: Seq<char>, sep: Seq<char>, name: Seq<char>) -> Seq<char> {
    dir + sep + name
}

/// Joins a directory and a name in it.
pub fn join_path(dir: &str, sep: &str, name: &str) -> (r: String)
    ensures
        r@ == joined(dir@, sep@, name@),
{
    let mut s = String::from_str(dir);
    s.append(sep);
    s.append(name);
    s
}

/// The paths of the folders `names` inside the directory `path`, one for
/// each name and in the same order.
pub fn mass_make_dirs(path: &str, sep: &str, names: &Vec<String>) -> (r: Vec<String>)
    ensures
        r@.len() == names@.len(),
        forall|i: int| 0 <= i < names@.len() ==> (#[trigger] r@[i])@ == joined(path@, sep@, names@[i]@),
{
    let mut out: Vec<String> = Vec::new();
    let n: usize = names.len();
    let mut i: usize = 0;
    while i < n
        invariant
            i <= n,
            n == names@.len(),
            out@.len() == i,
            forall|j: int| 0 <= j < i ==> (#[trigger] out@[j])@ == joined(path@, sep@, names@[j]@),
        decreases n - i,
    {
        out.push(join_path(path, sep, names[i].as_str()));
        i = i + 1;
    }
    out
}

/// The plan for one directory.
#[derive(Clone, Debug)]
pub struct SortPlan {
    /// The folder of each extension token.
    pub names: RankedFolderMap,
    /// The paths of the folders to create, in the order of `names`.
    pub folders: Vec<String>,
    /// For each file, in the order given, the path it moves to.
    pub destinations: Vec<String>,
}

impl SortPlan {
    /// Nothing is created and nothing moves.
    pub open spec fn idle(&self) -> bool {
        &&& self.names.entries@.len() == 0
        &&& self.folders@.len() == 0
        &&& self.destinations@.len() == 0
    }

    /// The plan sorts `files`, which lie in `path` and whose tokens are
    /// `toks`, one for each file: one folder in `path` for each different
    /// token, and each file goes into the folder of its token under its own
    /// name.
    pub open spec fn sorts_by(
        &self,
        path: Seq<char>,
        sep: Seq<char>,
        files: Seq<FileEntry>,
        toks: Seq<Seq<char>>,
    ) -> bool {
        &&& toks.len() == files.len()
        &&& self.names.ranks(toks)
        &&& self.folders@.len() == self.names.entries@.len()
        &&& forall|k: int|
            0 <= k < self.folders@.len() ==> (#[trigger] self.folders@[k])@ == joined(
                path,
                sep,
                self.names.folders()[k],
            )
        &&& self.destinations@.len() == files.len()
        &&& forall|i: int|
            0 <= i < files.len() ==> self.names@.contains_key(toks[i]) && (
            #[trigger] self.destinations@[i])@ == joined(
                joined(files[i].parent@, sep, self.names@[toks[i]]),
                sep,
                files[i].name@,
            )
    }

    /// The plan sorts `files`, which lie in `path`, by their own tokens.
    pub open spec fn sorts(&self, path: Seq<char>, sep: Seq<char>, files: Seq<FileEntry>) -> bool {
        self.sorts_by(path, sep, files, file_tokens(files))
    }

    /// Whether there is nothing to do.
    pub fn is_idle(&self) -> (r: bool)
        ensures
            r == self.idle(),
    {
        self.names.is_empty() && self.folders.len() == 0 && self.destinations.len() == 0
    }
}

/// Plans the sorting of the files `files` of the directory `path`, whose
/// tokens are `tokens`, one for each file and in the same order. Where all
/// tokens are the same the plan is idle.
pub fn plan_sorting(path: &str, sep: &str, files: &Vec<FileEntry>, tokens: &Vec<String>) -> (r:
    SortPlan)
    requires
        tokens@.len() == files@.len(),
    ensures
        all_same(texts(tokens@)) ==> r.idle(),
        !all_same(texts(tokens@)) ==> r.sorts_by(path@, sep@, files@, texts(tokens@)),
{
    let ghost toks = texts(tokens@);
    let names = rank_tokens(tokens);
    if names.is_empty() {
        proof {
            if !all_same(toks) {
                assert(names.tokens().len() == 0);
                assert(toks.contains(toks[0]));
                assert(names.tokens().contains(toks[0]));
            }
        }
        return SortPlan { names, folders: Vec::new(), destinations: Vec::new() };
    }
    let folder_names = names.folder_names();
    let folders = mass_make_dirs(path, sep, &folder_names);
    let mut destinations: Vec<String> = Vec::new();
    let n: usize = files.len();
    let mut i: usize = 0;
    while i < n
        invariant
            i <= n,
            n == files@.len(),
            n == tokens@.len(),
            toks == texts(tokens@),
            names.ranks(toks),
            destinations@.len() == i,
            forall|j: int|
                0 <= j < i ==> names@.contains_key(toks[j]) && (#[trigger] destinations@[j])@
                    == joined(
                    joined(files@[j].parent@, sep@, names@[toks[j]]),
                    sep@,
                    files@[j].name@,
                ),
        decreases n - i,
    {
        proof {
            assert(toks[i as int] == tokens@[i as int]@);
            assert(toks.contains(tokens@[i as int]@));
            assert(names.tokens().contains(tokens@[i as int]@));
        }
        let folder = names.get(tokens[i].as_str());
        let inside = join_path(files[i].parent.as_str(), sep, folder.unwrap().as_str());
        destinations.push(join_path(inside.as_str(), sep, files[i].name.as_str()));
        i = i + 1;
    }
    proof {
        assert forall|k: int| 0 <= k < folders@.len() implies (#[trigger] folders@[k])@ == joined(
            path@,
            sep@,
            names.folders()[k],
        ) by {
            assert(texts(folder_names@)[k] == names.folders()[k]);
        }
    }
    SortPlan { names, folders, destinations }
}

/// Plans the sorting of the files `files` of the directory `path`: each file
/// is classified, and the plan is made from the tokens. Where the files have
/// at most one extension token between them the plan is idle.
pub fn sort_files_by_ext(path: &str, sep: &str, files: &Vec<FileEntry>) -> (r: SortPlan)
    ensures
        all_same(file_tokens(files@)) ==> r.idle(),
        !all_same(file_tokens(files@)) ==> r.sorts(path@, sep@, files@),
{
    let tokens = classify_all(files);
    plan_sorting(path, sep, files, &tokens)
}

/// A plan that sorts the files of a directory has as many folders as there
/// are different tokens, and each file of the directory goes, under its own
/// name, into the folder of its token and into no other.
pub proof fn lemma_plan_covers(
    plan: SortPlan,
    path: Seq<char>,
    sep: Seq<char>,
    files: Seq<FileEntry>,
    toks: Seq<Seq<char>>,
    i: int,
)
    requires
        plan.sorts_by(path, sep, files, toks),
        0 <= i < files.len(),
        files[i].parent@ == path,
    ensures
        plan.folders@.len() == sorted_tokens(toks).len(),
        exists|k: int|
            {
                &&& 0 <= k < plan.folders@.len()
                &&& #[trigger] plan.names.tokens()[k] == toks[i]
                &&& plan.destinations@[i]@ == joined(plan.folders@[k]@, sep, files[i].name@)
                &&& forall|m: int|
                    0 <= m < plan.folders@.len() && #[trigger] plan.names.tokens()[m] == toks[i]
                        ==> m == k
            },
{
    let d = plan.names.tokens();
    lemma_ranks_is_ranking(toks, plan.names);
    assert(plan.names@.contains_key(toks[i]));
    let k = d.index_of(toks[i]);
    assert(0 <= k < d.len() && d[k] == toks[i]);
    assert(plan.names@[toks[i]] == plan.names.folders()[k]);
    assert(plan.folders@[k]@ == joined(path, sep, plan.names.folders()[k]));
    assert(plan.destinations@[i]@ == joined(plan.folders@[k]@, sep, files[i].name@));
    lemma_lex_irreflexive(toks[i], 0);
    assert forall|m: int| 0 <= m < plan.folders@.len() && #[trigger] d[m] == toks[i] implies m
        == k by {
        if m < k {
            assert(lex_lt(d[m], d[k]));
        } else if k < m {
            assert(lex_lt(d[k], d[m]));
        }
    }
}

/// One step of carrying out a plan. The caller performs it and reports
/// whether it went well.
#[derive(Clone, Copy, Debug, PartialEq, Eq, Structural)]
pub enum Step {
    /// Create the folder with this index.
    CreateFolder(usize),
    /// Copy the file with this index to its destination.
    CopyFile(usize),
    /// Remove the file with this index from its old place.
    DeleteFile(usize),
    /// The directory is sorted.
    Done,
    /// The run ends with this failure.
    Abort(SortError),
}

/// The step that copies file `i`, or the end if there is no such file.
pub open spec fn copy_or_done(files: usize, i: int) -> Step {
    if i < files {
        Step::CopyFile(i as usize)
    } else {
        Step::Done
    }
}

/// The first step of a plan with so many folders and files.
pub open spec fn first_step_spec(folders: usize, files: usize) -> Step {
    if folders == 0 {
        Step::Done
    } else {
        Step::CreateFolder(0)
    }
}

/// The step after `current`, which went well or not. A folder that cannot be
/// created and a file that cannot be copied end the run. A file that cannot
/// be deleted does not: the next file is copied as if it had been.
pub open spec fn next_step_spec(folders: usize, files: usize, current: Step, ok: bool) -> Step {
    match current {
        Step::CreateFolder(i) => if !ok {
            Step::Abort(SortError::DirectoryCreate)
        } else if i + 1 < folders {
            Step::CreateFolder((i + 1) as usize)
        } else {
            copy_or_done(files, 0)
        },
        Step::CopyFile(i) => if !ok {
            Step::Abort(SortError::Copy)
        } else {
            Step::DeleteFile(i)
        },
        Step::DeleteFile(i) => copy_or_done(files, i + 1),
        Step::Done => Step::Done,
        Step::Abort(e) => Step::Abort(e),
    }
}

/// The failure to report after `current`, whether or not the run goes on.
pub open spec fn reported_spec(current: Step, ok: bool) -> Option<SortError> {
    match current {
        Step::CreateFolder(_) => if ok {
            None
        } else {
            Some(SortError::DirectoryCreate)
        },
        Step::CopyFile(_) => if ok {
            None
        } else {
            Some(SortError::Copy)
        },
        Step::DeleteFile(_) => if ok {
            None
        } else {
            Some(SortError::Delete)
        },
        Step::Done => None,
        Step::Abort(_) => None,
    }
}

/// The first step of a plan: with no folder to create nothing is touched.
pub fn first_step(folders: usize, files: usize) -> (r: Step)
    ensures
        r == first_step_spec(folders, files),
{
    if folders == 0 {
        Step::Done
    } else {
        Step::CreateFolder(0)
    }
}

/// The step after `current`, and the failure to report, if any.
pub fn next_step(folders: usize, files: usize, current: Step, ok: bool) -> (r: (
    Step,
    Option<SortError>,
))
    ensures
        r.0 == next_step_spec(folders, files, current, ok),
        r.1 == reported_spec(current, ok),
{
    match current {
        Step::CreateFolder(i) => {
            if !ok {
                (Step::Abort(SortError::DirectoryCreate), Some(SortError::DirectoryCreate))
            } else if i < usize::MAX && i + 1 < folders {
                (Step::CreateFolder(i + 1), None)
            } else if 0 < files {
                (Step::CopyFile(0), None)
            } else {
                (Step::Done, None)
            }
        },
        Step::CopyFile(i) => {
            if !ok {
                (Step::Abort(SortError::Copy), Some(SortError::Copy))
            } else {
                (Step::DeleteFile(i), None)
            }
        },
        Step::DeleteFile(i) => {
            let report = if ok {
                None
            } else {
                Some(SortError::Delete)
            };
            if i < usize::MAX && i + 1 < files {
                (Step::CopyFile(i + 1), report)
            } else {
                (Step::Done, report)
            }
        },
        Step::Done => (Step::Done, None),
        Step::Abort(e) => (Step::Abort(e), None),
    }
}

/// Whether `step` belongs to a plan with so many folders and files.
pub open spec fn step_fits(folders: usize, files: usize, step: Step) -> bool {
    match step {
        Step::CreateFolder(i) => i < folders,
        Step::CopyFile(i) => i < files,
        Step::DeleteFile(i) => i < files,
        Step::Done => true,
        Step::Abort(_) => true,
    }
}

/// The place of a step in a run in which every step goes well: first the
/// folders, then for each file in turn its copy and its deletion.
pub open spec fn step_number(folders: usize, files: usize, step: Step) -> int {
    match step {
        Step::CreateFolder(i) => i as int,
        Step::CopyFile(i) => folders + 2 * i,
        Step::DeleteFile(i) => folders + 2 * i + 1,
        Step::Done => folders + 2 * files,
        Step::Abort(_) => -1,
    }
}

/// While every step goes well a run goes through its steps one by one and
/// leaves none out: every folder is created, then every file is copied and
/// deleted, and then the run is done.
pub proof fn lemma_run_leaves_nothing_out(folders: usize, files: usize, current: Step)
    requires
        folders > 0,
        step_fits(folders, files, current),
        !(current is Done),
        !(current is Abort),
    ensures
        step_fits(folders, files, next_step_spec(folders, files, current, true)),
        !(next_step_spec(folders, files, current, true) is Abort),
        step_number(folders, files, next_step_spec(folders, files, current, true)) == step_number(
            folders,
            files,
            current,
        ) + 1,
        step_number(folders, files, first_step_spec(folders, files)) == 0,
{
}

/// A file that was copied and could not be deleted does not end the run:
/// the failure is reported, it is not fatal, and the run goes on exactly as
/// after a deletion that went well.
pub proof fn lemma_delete_failure_goes_on(folders: usize, files: usize, i: usize)
    ensures
        next_step_spec(folders, files, Step::DeleteFile(i), false) == next_step_spec(
            folders,
            files,
            Step::DeleteFile(i),
            true,
        ),
        !(next_step_spec(folders, files, Step::DeleteFile(i), false) is Abort),
        reported_spec(Step::DeleteFile(i), false) == Some(SortError::Delete),
        !SortError::Delete.fatal(),
{
}

/// Only a folder that cannot be created or a file that cannot be copied
/// ends a run early, and a step that went well never does.
pub proof fn lemma_abort_only_on_failure(folders: usize, files: usize, current: Step, ok: bool)
    requires
        !(current is Abort),
    ensures
        next_step_spec(folders, files, current, ok) is Abort ==> !ok && (current is CreateFolder
            || current is CopyFile),
{
}

/// A plan without folders starts at its end: nothing is created, copied or
/// deleted.
pub proof fn lemma_idle_plan_touches_nothing(files: usize)
    ensures
        first_step_spec(0, files) == Step::Done,
        forall|ok: bool| next_step_spec(0, files, Step::Done, ok) == Step::Done,
{
}

} // verus!
