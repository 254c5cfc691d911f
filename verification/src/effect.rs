//! What carrying out a plan does to a directory, on a model of the
//! directory: its regular files and the folders made in it.

use vstd::prelude::*;
use crate::plan::{first_step_spec, lemma_run_leaves_nothing_out, next_step_spec, step_fits};
use crate::plan::{step_number, SortPlan, Step};
use crate::rank::FileEntry;

verus! {

/// A directory as far as sorting reads and changes it: the content of each
/// regular file directly in it, by name, and for each folder in it the
/// files that the folder holds.
pub struct Dir {
    pub files: Map<Seq<char>, Seq<u8>>,
    pub folders: Map<Seq<char>, Map<Seq<char>, Seq<u8>>>,
}

/// The steps of a plan by names instead of paths: the folders to create,
/// the names of the files, and for each file the folder it goes to.
pub struct Job {
    pub folders: Seq<Seq<char>>,
    pub names: Seq<Seq<char>>,
    pub dest: Seq<Seq<char>>,
}

/// `x` is the name of one of the first `d` files.
pub open spec fn named_before(names: Seq<Seq<char>>, x: Seq<char>, d: int) -> bool {
    exists|j: int| 0 <= j < d && #[trigger] names[j] == x
}

/// `f` is one of the first `m` folders.
pub open spec fn made_before(folders: Seq<Seq<char>>, f: Seq<char>, m: int) -> bool {
    exists|k: int| 0 <= k < m && #[trigger] folders[k] == f
}

/// One of the first `c` files has the name `x` and goes to the folder `f`.
pub open spec fn put_before(job: Job, f: Seq<char>, x: Seq<char>, c: int) -> bool {
    exists|j: int| 0 <= j < c && #[trigger] job.names[j] == x && job.dest[j] == f
}

impl Job {
    /// There is a folder to create, no two files share a name, and every
    /// file goes to one of the folders.
    pub open spec fn wf(self) -> bool {
        &&& self.dest.len() == self.names.len()
        &&& self.names.len() <= usize::MAX
        &&& 0 < self.folders.len() <= usize::MAX
        &&& forall|i: int, j: int|
            0 <= i < j < self.names.len() ==> #[trigger] self.names[i] != #[trigger] self.names[j]
        &&& forall|i: int|
            0 <= i < self.names.len() ==> made_before(
                self.folders,
                #[trigger] self.dest[i],
                self.folders.len() as int,
            )
    }

    /// The directory holds every file of the job.
    pub open spec fn reads(self, dir: Dir) -> bool {
        forall|i: int| 0 <= i < self.names.len() ==> dir.files.contains_key(#[trigger] self.names[i])
    }
}

/// The directory after a step that went well.
pub open spec fn effect(dir: Dir, job: Job, step: Step) -> Dir {
    match step {
        Step::CreateFolder(k) => Dir {
            files: dir.files,
            folders: dir.folders.insert(job.folders[k as int], Map::empty()),
        },
        Step::CopyFile(i) => Dir {
            files: dir.files,
            folders: dir.folders.insert(
                job.dest[i as int],
                dir.folders[job.dest[i as int]].insert(
                    job.names[i as int],
                    dir.files[job.names[i as int]],
                ),
            ),
        },
        Step::DeleteFile(i) => Dir {
            files: dir.files.remove(job.names[i as int]),
            folders: dir.folders,
        },
        Step::Done => dir,
        Step::Abort(_) => dir,
    }
}

/// The directory after the run from `step` on in which every step goes
/// well, at most `fuel` steps long.
pub open spec fn run(dir: Dir, job: Job, step: Step, fuel: nat) -> Dir
    decreases fuel,
{
    if fuel == 0 || step is Done || step is Abort {
        dir
    } else {
        run(
            effect(dir, job, step),
            job,
            next_step_spec(job.folders.len() as usize, job.names.len() as usize, step, true),
            (fuel - 1) as nat,
        )
    }
}

/// How many folders are made before `step`.
pub open spec fn made(job: Job, step: Step) -> int {
    match step {
        Step::CreateFolder(k) => k as int,
        _ => job.folders.len() as int,
    }
}

/// How many files are copied before `step`.
pub open spec fn copied(job: Job, step: Step) -> int {
    match step {
        Step::CreateFolder(_) => 0,
        Step::CopyFile(i) => i as int,
        Step::DeleteFile(i) => i + 1,
        _ => job.names.len() as int,
    }
}

/// How many files are deleted before `step`.
pub open spec fn deleted(job: Job, step: Step) -> int {
    match step {
        Step::CreateFolder(_) => 0,
        Step::CopyFile(i) => i as int,
        Step::DeleteFile(i) => i as int,
        _ => job.names.len() as int,
    }
}

/// The directory `dir` is what `start` has become once the first `m`
/// folders are made, the first `c` files copied and the first `d` deleted:
/// the files not yet deleted lie where they lay, the folders made are there,
/// and each holds the files copied to it, with their content.
pub open spec fn state_ok(start: Dir, dir: Dir, job: Job, m: int, c: int, d: int) -> bool {
    &&& forall|x: Seq<char>| #[trigger]
        dir.files.contains_key(x) <==> start.files.contains_key(x) && !named_before(job.names, x, d)
    &&& forall|x: Seq<char>| #[trigger] dir.files.contains_key(x) ==> dir.files[x] == start.files[x]
    &&& forall|f: Seq<char>| #[trigger]
        dir.folders.contains_key(f) <==> made_before(job.folders, f, m)
    &&& forall|f: Seq<char>, x: Seq<char>|
        dir.folders.contains_key(f) ==> (#[trigger] dir.folders[f].contains_key(x) <==> put_before(
            job,
            f,
            x,
            c,
        ))
    &&& forall|f: Seq<char>, x: Seq<char>|
        dir.folders.contains_key(f) && #[trigger] dir.folders[f].contains_key(x) ==> dir.folders[f][x]
            == start.files[x]
}

/// A step that goes well takes the directory from the state before it to
/// the state before the next step.
pub proof fn lemma_effect_keeps(start: Dir, dir: Dir, job: Job, step: Step)
    requires
        job.wf(),
        job.reads(start),
        step_fits(job.folders.len() as usize, job.names.len() as usize, step),
        !(step is Done),
        !(step is Abort),
        state_ok(start, dir, job, made(job, step), copied(job, step), deleted(job, step)),
    ensures
        ({
            let next = next_step_spec(
                job.folders.len() as usize,
                job.names.len() as usize,
                step,
                true,
            );
            state_ok(
                start,
                effect(dir, job, step),
                job,
                made(job, next),
                copied(job, next),
                deleted(job, next),
            )
        }),
{
    let next = next_step_spec(job.folders.len() as usize, job.names.len() as usize, step, true);
    let after = effect(dir, job, step);
    match step {
        Step::CreateFolder(k) => {
            let new = job.folders[k as int];
            assert(made(job, next) == k + 1);
            assert(copied(job, next) == 0 && deleted(job, next) == 0);
            assert forall|f: Seq<char>| #[trigger]
                after.folders.contains_key(f) <==> made_before(job.folders, f, k + 1) by {
                if made_before(job.folders, f, k + 1) {
                    let j = choose|j: int| 0 <= j < k + 1 && #[trigger] job.folders[j] == f;
                    if j < k {
                        assert(made_before(job.folders, f, k as int));
                    }
                }
                if made_before(job.folders, f, k as int) {
                    let j = choose|j: int| 0 <= j < k && #[trigger] job.folders[j] == f;
                    assert(0 <= j < k + 1 && job.folders[j] == f);
                }
                if f == new {
                    assert(job.folders[k as int] == f);
                }
            }
            assert forall|f: Seq<char>, x: Seq<char>| after.folders.contains_key(f) implies (
            #[trigger] after.folders[f].contains_key(x) <==> put_before(job, f, x, 0)) by {
                if f != new {
                    assert(dir.folders.contains_key(f));
                    assert(after.folders[f] == dir.folders[f]);
                }
            }
            assert forall|f: Seq<char>, x: Seq<char>|
                after.folders.contains_key(f) && #[trigger] after.folders[f].contains_key(
                    x,
                ) implies after.folders[f][x] == start.files[x] by {
                if f != new {
                    assert(dir.folders.contains_key(f));
                    assert(after.folders[f] == dir.folders[f]);
                }
            }
        },
        Step::CopyFile(i) => {
            let x0 = job.names[i as int];
            let f0 = job.dest[i as int];
            assert(made_before(job.folders, f0, job.folders.len() as int));
            assert(dir.folders.contains_key(f0));
            assert(!named_before(job.names, x0, i as int)) by {
                if named_before(job.names, x0, i as int) {
                    let j = choose|j: int| 0 <= j < i && #[trigger] job.names[j] == x0;
                    assert(job.names[j] != job.names[i as int]);
                }
            }
            assert(start.files.contains_key(x0));
            assert(dir.files.contains_key(x0));
            assert forall|f: Seq<char>| #[trigger]
                after.folders.contains_key(f) <==> made_before(
                    job.folders,
                    f,
                    job.folders.len() as int,
                ) by {
                assert(after.folders.contains_key(f) <==> dir.folders.contains_key(f));
            }
            assert forall|f: Seq<char>, x: Seq<char>| after.folders.contains_key(f) implies (
            #[trigger] after.folders[f].contains_key(x) <==> put_before(job, f, x, i + 1)) by {
                assert(dir.folders.contains_key(f));
                if put_before(job, f, x, i + 1) {
                    let j = choose|j: int|
                        0 <= j < i + 1 && #[trigger] job.names[j] == x && job.dest[j] == f;
                    if j < i {
                        assert(put_before(job, f, x, i as int));
                    }
                }
                if put_before(job, f, x, i as int) {
                    let j = choose|j: int|
                        0 <= j < i && #[trigger] job.names[j] == x && job.dest[j] == f;
                    assert(0 <= j < i + 1 && job.names[j] == x && job.dest[j] == f);
                }
                if f == f0 && x == x0 {
                    assert(job.names[i as int] == x && job.dest[i as int] == f);
                }
                if f != f0 {
                    assert(after.folders[f] == dir.folders[f]);
                }
            }
            assert forall|f: Seq<char>, x: Seq<char>|
                after.folders.contains_key(f) && #[trigger] after.folders[f].contains_key(
                    x,
                ) implies after.folders[f][x] == start.files[x] by {
                assert(dir.folders.contains_key(f));
                if f != f0 {
                    assert(after.folders[f] == dir.folders[f]);
                } else if x != x0 {
                    assert(dir.folders[f].contains_key(x));
                }
            }
        },
        Step::DeleteFile(i) => {
            let x0 = job.names[i as int];
            assert(made(job, next) == job.folders.len());
            assert(copied(job, next) == i + 1);
            assert(deleted(job, next) == i + 1);
            assert forall|x: Seq<char>| #[trigger]
                after.files.contains_key(x) <==> start.files.contains_key(x) && !named_before(
                    job.names,
                    x,
                    i + 1,
                ) by {
                if named_before(job.names, x, i + 1) {
                    let j = choose|j: int| 0 <= j < i + 1 && #[trigger] job.names[j] == x;
                    if j < i {
                        assert(named_before(job.names, x, i as int));
                    }
                }
                if named_before(job.names, x, i as int) {
                    let j = choose|j: int| 0 <= j < i && #[trigger] job.names[j] == x;
                    assert(0 <= j < i + 1 && job.names[j] == x);
                }
                if x == x0 {
                    assert(job.names[i as int] == x);
                }
                assert(dir.files.contains_key(x) <==> start.files.contains_key(x) && !named_before(
                    job.names,
                    x,
                    i as int,
                ));
            }
            assert forall|x: Seq<char>| #[trigger] after.files.contains_key(x) implies after.files[x]
                == start.files[x] by {
                assert(dir.files.contains_key(x));
            }
        },
        _ => {},
    }
}

/// The run in which every step goes well ends in the state in which every
/// folder is made and every file copied and deleted.
pub proof fn lemma_run_ends_sorted(start: Dir, dir: Dir, job: Job, step: Step, fuel: nat)
    requires
        job.wf(),
        job.reads(start),
        step_fits(job.folders.len() as usize, job.names.len() as usize, step),
        !(step is Abort),
        state_ok(start, dir, job, made(job, step), copied(job, step), deleted(job, step)),
        fuel >= job.folders.len() + 2 * job.names.len() - step_number(
            job.folders.len() as usize,
            job.names.len() as usize,
            step,
        ),
    ensures
        state_ok(
            start,
            run(dir, job, step, fuel),
            job,
            job.folders.len() as int,
            job.names.len() as int,
            job.names.len() as int,
        ),
    decreases fuel,
{
    if !(step is Done) {
        let folders = job.folders.len() as usize;
        let files = job.names.len() as usize;
        lemma_effect_keeps(start, dir, job, step);
        lemma_run_leaves_nothing_out(folders, files, step);
        let next = next_step_spec(folders, files, step, true);
        lemma_run_ends_sorted(start, effect(dir, job, step), job, next, (fuel - 1) as nat);
    }
}

/// Sorting a directory that holds the files of the job and nothing else,
/// where every step goes well: afterwards no file lies directly in the
/// directory, the folders in it are those of the job, every file lies in
/// its folder with the content it had, and no folder holds anything else.
pub proof fn lemma_sorted_directory(start: Dir, job: Job)
    requires
        job.wf(),
        job.reads(start),
        forall|x: Seq<char>|
            start.files.contains_key(x) ==> named_before(job.names, x, job.names.len() as int),
        start.folders == Map::<Seq<char>, Map<Seq<char>, Seq<u8>>>::empty(),
    ensures
        ({
            let end = run(
                start,
                job,
                first_step_spec(job.folders.len() as usize, job.names.len() as usize),
                job.folders.len() + 2 * job.names.len(),
            );
            &&& end.files == Map::<Seq<char>, Seq<u8>>::empty()
            &&& forall|f: Seq<char>|
                end.folders.contains_key(f) <==> made_before(
                    job.folders,
                    f,
                    job.folders.len() as int,
                )
            &&& forall|i: int|
                0 <= i < job.names.len() ==> end.folders.contains_key(job.dest[i])
                    && end.folders[job.dest[i]].contains_key(#[trigger] job.names[i])
                    && end.folders[job.dest[i]][job.names[i]] == start.files[job.names[i]]
            &&& forall|f: Seq<char>, x: Seq<char>|
                end.folders.contains_key(f) && #[trigger] end.folders[f].contains_key(x)
                    ==> put_before(job, f, x, job.names.len() as int)
        }),
{
    let first = first_step_spec(job.folders.len() as usize, job.names.len() as usize);
    let fuel = job.folders.len() + 2 * job.names.len();
    assert(first == Step::CreateFolder(0));
    assert(state_ok(start, start, job, 0, 0, 0));
    lemma_run_ends_sorted(start, start, job, first, fuel);
    let end = run(start, job, first, fuel);
    assert(end.files =~= Map::<Seq<char>, Seq<u8>>::empty());
    assert forall|i: int| 0 <= i < job.names.len() implies end.folders.contains_key(job.dest[i])
        && end.folders[job.dest[i]].contains_key(#[trigger] job.names[i])
        && end.folders[job.dest[i]][job.names[i]] == start.files[job.names[i]] by {
        assert(made_before(job.folders, job.dest[i], job.folders.len() as int));
        assert(put_before(job, job.dest[i], job.names[i], job.names.len() as int));
    }
}

/// A file that was copied and then could not be deleted lies in both
/// places with the same content, and the run goes on. A deletion that fails
/// leaves the directory as the copy left it.
pub proof fn lemma_copied_not_deleted(dir: Dir, job: Job, i: usize)
    requires
        i < job.names.len(),
        dir.files.contains_key(job.names[i as int]),
    ensures
        ({
            let after = effect(dir, job, Step::CopyFile(i));
            let name = job.names[i as int];
            let folder = job.dest[i as int];
            &&& after.files.contains_key(name)
            &&& after.files[name] == dir.files[name]
            &&& after.folders.contains_key(folder)
            &&& after.folders[folder].contains_key(name)
            &&& after.folders[folder][name] == dir.files[name]
            &&& !(next_step_spec(
                job.folders.len() as usize,
                job.names.len() as usize,
                Step::DeleteFile(i),
                false,
            ) is Abort)
        }),
{
}

/// The job of a plan for `files` with the tokens `toks`.
pub open spec fn job_of(plan: SortPlan, files: Seq<FileEntry>, toks: Seq<Seq<char>>) -> Job {
    Job {
        folders: plan.names.folders(),
        names: Seq::new(files.len(), |i: int| files[i].name@),
        dest: Seq::new(files.len(), |i: int| plan.names@[toks[i]]),
    }
}

/// The job of a plan that sorts files with different names is well formed,
/// so what is said of jobs holds of such a plan.
pub proof fn lemma_plan_job(
    plan: SortPlan,
    path: Seq<char>,
    sep: Seq<char>,
    files: Seq<FileEntry>,
    toks: Seq<Seq<char>>,
)
    requires
        plan.sorts_by(path, sep, files, toks),
        0 < files.len() <= usize::MAX,
        plan.names.entries@.len() <= usize::MAX,
        forall|i: int, j: int| 0 <= i < j < files.len() ==> files[i].name@ != files[j].name@,
    ensures
        job_of(plan, files, toks).wf(),
{
    let job = job_of(plan, files, toks);
    assert forall|i: int| 0 <= i < job.names.len() implies made_before(
        job.folders,
        #[trigger] job.dest[i],
        job.folders.len() as int,
    ) by {
        assert(plan.names@.contains_key(toks[i]));
        let k = plan.names.tokens().index_of(toks[i]);
        assert(0 <= k < plan.names.tokens().len() && plan.names.tokens()[k] == toks[i]);
        assert(job.folders[k] == job.dest[i]);
    }
    assert(plan.names@.contains_key(toks[0]));
    assert(plan.names.tokens().len() > 0);
}

} // verus!
