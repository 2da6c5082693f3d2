//! The thumbnailing of one batch of pictures, as a sequence of steps: the commands that make
//! the missing thumbnails, each picture of a failed command tried again on its own, the
//! pictures still unmeasured asked for their size, every picture stamped and remembered, and
//! the thumbnails of the pictures that failed removed. Each step names the work the caller
//! does, and what came of it decides the next.
use crate::thumbnails::{
    command_args, identified, kept, measure, measured, measured_items, printed_members, read_count, retained,
    texts, thumbnail_command, unmeasured, CachedInfo, Stamp, ThumbnailCache, ThumbnailInfo,
};
use vstd::prelude::*;
use vstd::string::StringExecFns;

verus! {

/// Where a batch stands.
#[derive(Clone, Copy, PartialEq, Eq, Debug, Structural)]
pub enum Stage {
    /// Running the command of the batch of that position.
    Batch(usize),
    /// Trying the picture at the second position of that batch again on its own, after the
    /// batch's command failed.
    Retry(usize, usize),
    /// Asking ImageMagick for the size of the picture at that position.
    Identify(usize),
    /// Stamping the file of the picture at that position, to remember what was read of it.
    Stamp(usize),
    /// Removing the thumbnail of the dropped picture at that position of the dropped list.
    Remove(usize),
    /// Finished: the pictures not dropped are the batch's result.
    Done,
    /// Stopped because the import was cancelled.
    Cancelled,
}

/// What the caller is to do next.
#[derive(Debug)]
pub enum BatchAction {
    /// Run ImageMagick with these arguments and report what it printed.
    Run(Vec<String>),
    /// Run ImageMagick's `identify` with these arguments and report what it printed.
    Identify(Vec<String>),
    /// Stamp this file and report its stamp.
    Stamp(String),
    /// Remove this file, whatever comes of it, and report that it was tried.
    Remove(String),
    /// The batch is done: these are its pictures.
    Finished(Vec<ThumbnailInfo>),
    /// The import was cancelled.
    Cancelled,
}

/// What came of the work an action asked for.
#[derive(Debug)]
pub enum BatchReport {
    /// What a command printed, or why it failed, and whether the import was cancelled by then.
    Printed(Result<String, String>, bool),
    /// What `identify` printed, or why it failed, and whether the import was cancelled by then.
    Identified(Result<String, String>, bool),
    /// The file's stamp, or why it could not be read.
    Stamped(Result<Stamp, String>),
    /// The removal was tried.
    Removed,
}

/// A batch of pictures on its way to thumbnails.
pub struct BatchRun {
    pub items: Vec<ThumbnailInfo>,
    pub batches: Vec<Vec<usize>>,
    pub size: u32,
    /// The positions of the pictures that could not be thumbnailed, in the order they failed.
    pub dropped: Vec<usize>,
    pub stage: Stage,
}

/// The arguments that ask ImageMagick for a picture's width, height and format.
pub open spec fn identify_args(path: Seq<char>) -> Seq<Seq<char>> {
    seq!["identify"@, "-format"@, "%w %h %m"@, path + "[0]"@]
}

/// The first stage of the last pass from picture `from` on: the next picture not dropped is
/// asked for its size where it is unmeasured, else stamped; after the last picture the dropped
/// thumbnails are removed, and the batch is done when there are none.
pub open spec fn final_from(items: Seq<ThumbnailInfo>, dropped: Seq<usize>, from: int) -> Stage
    decreases items.len() - from,
{
    if from < 0 || from >= items.len() {
        if dropped.len() > 0 {
            Stage::Remove(0)
        } else {
            Stage::Done
        }
    } else if dropped.contains(from as usize) {
        final_from(items, dropped, from + 1)
    } else if unmeasured(items[from]) {
        Stage::Identify(from as usize)
    } else {
        Stage::Stamp(from as usize)
    }
}

/// The stage after the batches before `next`: the next batch, or the last pass.
pub open spec fn after_batches(
    items: Seq<ThumbnailInfo>,
    batches: Seq<Vec<usize>>,
    dropped: Seq<usize>,
    next: int,
) -> Stage {
    if 0 <= next < batches.len() {
        Stage::Batch(next as usize)
    } else {
        final_from(items, dropped, 0)
    }
}

/// Whether a stage points at what exists: a batch, a member, a picture, a dropped picture.
pub open spec fn stage_in_bounds(
    stage: Stage,
    items: Seq<ThumbnailInfo>,
    batches: Seq<Vec<usize>>,
    dropped: Seq<usize>,
) -> bool {
    match stage {
        Stage::Batch(k) => k < batches.len(),
        Stage::Retry(k, j) => k < batches.len() && j < batches[k as int]@.len() && batches[k as int]@.len() > 1,
        Stage::Identify(i) => i < items.len() && !dropped.contains(i),
        Stage::Stamp(i) => i < items.len() && !dropped.contains(i),
        Stage::Remove(d) => d < dropped.len(),
        Stage::Done => true,
        Stage::Cancelled => true,
    }
}

proof fn lemma_final_from(items: Seq<ThumbnailInfo>, dropped: Seq<usize>, from: int)
    requires
        0 <= from,
        items.len() <= usize::MAX,
    ensures
        match final_from(items, dropped, from) {
            Stage::Identify(i) => from <= i < items.len() && !dropped.contains(i) && unmeasured(items[i as int]),
            Stage::Stamp(i) => from <= i < items.len() && !dropped.contains(i) && !unmeasured(items[i as int]),
            Stage::Remove(d) => d == 0 && dropped.len() > 0,
            Stage::Done => dropped.len() == 0,
            _ => false,
        },
    decreases items.len() - from,
{
    if from < items.len() && dropped.contains(from as usize) {
        lemma_final_from(items, dropped, from + 1);
    }
}

impl BatchRun {
    /// Whether every position the batch holds points at one of its pictures, and its stage at
    /// what exists.
    pub open spec fn wf(&self) -> bool {
        &&& forall|k: int, j: int|
            0 <= k < self.batches@.len() && 0 <= j < self.batches@[k]@.len() ==> #[trigger] self.batches@[k]@[j]
                < self.items@.len()
        &&& forall|k: int| 0 <= k < self.batches@.len() ==> #[trigger] self.batches@[k]@.len() > 0
        &&& forall|d: int| 0 <= d < self.dropped@.len() ==> #[trigger] self.dropped@[d] < self.items@.len()
        &&& stage_in_bounds(self.stage, self.items@, self.batches@, self.dropped@)
    }

    /// A batch of pictures whose thumbnails are missing at the positions `misses`, made in
    /// commands of `batch_size` pictures, or one by one where that is zero, at `size`.
    pub fn new(items: Vec<ThumbnailInfo>, misses: &[usize], batch_size: usize, size: u32) -> (run: Self)
        requires
            forall|i: int| 0 <= i < misses@.len() ==> #[trigger] misses@[i] < items@.len(),
        ensures
            run.wf(),
            run.items@ == items@,
            run.batches@.map_values(|batch: Vec<usize>| batch@) == crate::thumbnails::chunks_of(
                misses@,
                if batch_size < 1 { 1 } else { batch_size as nat },
            ),
            run.size == size,
            run.dropped@.len() == 0,
            run.stage == after_batches(items@, run.batches@, Seq::empty(), 0),
    {
        let batches = crate::thumbnails::batches(misses, batch_size);
        assert(items@.len() == items.len());
        proof {
            crate::thumbnails::lemma_chunks_hold(misses@, if batch_size < 1 { 1 } else { batch_size as nat });
            assert forall|k: int, j: int|
                0 <= k < batches@.len() && 0 <= j < batches@[k]@.len() implies #[trigger] batches@[k]@[j] < items@.len() by {
                let views = batches@.map_values(|batch: Vec<usize>| batch@);
                assert(views[k] == batches@[k]@);
                assert(misses@.contains(views[k][j]));
            }
            assert forall|k: int| 0 <= k < batches@.len() implies #[trigger] batches@[k]@.len() > 0 by {
                let views = batches@.map_values(|batch: Vec<usize>| batch@);
                assert(views[k] == batches@[k]@);
            }
            lemma_final_from(items@, Seq::empty(), 0);
        }
        let stage = if batches.len() > 0 {
            Stage::Batch(0)
        } else {
            Self::final_stage(&items, &Vec::new(), 0)
        };
        BatchRun { items, batches, size, dropped: Vec::new(), stage }
    }

    /// The first stage of the last pass from picture `from` on.
    fn final_stage(items: &Vec<ThumbnailInfo>, dropped: &Vec<usize>, from: usize) -> (stage: Stage)
        ensures
            stage == final_from(items@, dropped@, from as int),
    {
        let mut index = from;
        while index < items.len() && contains_index(dropped, index)
            invariant
                from <= index,
                final_from(items@, dropped@, index as int) == final_from(items@, dropped@, from as int),
            decreases items@.len() - index,
        {
            index = index + 1;
        }
        if index >= items.len() {
            if dropped.len() > 0 {
                Stage::Remove(0)
            } else {
                Stage::Done
            }
        } else if items[index].width == 0 || items[index].height == 0 {
            Stage::Identify(index)
        } else {
            Stage::Stamp(index)
        }
    }
}

/// Whether `list` holds `value`.
fn contains_index(list: &Vec<usize>, value: usize) -> (found: bool)
    ensures
        found == list@.contains(value),
{
    let mut index: usize = 0;
    while index < list.len()
        invariant
            index <= list@.len(),
            forall|i: int| 0 <= i < index ==> list@[i] != value,
        decreases list@.len() - index,
    {
        if list[index] == value {
            return true;
        }
        index = index + 1;
    }
    false
}

/// Whether an action asks for exactly what a stage calls for.
pub open spec fn action_for(run: &BatchRun, action: &BatchAction) -> bool {
    match run.stage {
        Stage::Batch(k) => action matches BatchAction::Run(args) && texts(args@) == command_args(
            run.items@,
            run.batches@[k as int]@,
            run.size,
            run.batches@[k as int]@.len() as int,
        ),
        Stage::Retry(k, j) => action matches BatchAction::Run(args) && texts(args@) == command_args(
            run.items@,
            seq![run.batches@[k as int]@[j as int]],
            run.size,
            1,
        ),
        Stage::Identify(i) => action matches BatchAction::Identify(args) && texts(args@) == identify_args(
            run.items@[i as int].path@,
        ),
        Stage::Stamp(i) => action matches BatchAction::Stamp(path) && path@ == run.items@[i as int].path@,
        Stage::Remove(d) => action matches BatchAction::Remove(path) && path@ == run.items@[run.dropped@[d as int] as int].thumbnail@,
        Stage::Done => action matches BatchAction::Finished(list) && list@ == kept(
            run.items@,
            run.dropped@,
            run.items@.len() as int,
        ),
        Stage::Cancelled => action is Cancelled,
    }
}

impl BatchRun {
    /// What the caller is to do next.
    pub fn next_action(&self) -> (action: BatchAction)
        requires
            self.wf(),
        ensures
            action_for(self, &action),
    {
        match self.stage {
            Stage::Batch(k) => {
                let (args, _) = thumbnail_command(self.items.as_slice(), self.batches[k].as_slice(), self.size);
                BatchAction::Run(args)
            },
            Stage::Retry(k, j) => {
                let member: Vec<usize> = vec![self.batches[k][j]];
                assert(member@ =~= seq![self.batches@[k as int]@[j as int]]);
                let (args, _) = thumbnail_command(self.items.as_slice(), member.as_slice(), self.size);
                BatchAction::Run(args)
            },
            Stage::Identify(i) => {
                let mut source = self.items[i].path.clone();
                crate::text::push_str(&mut source, "[0]");
                let mut args: Vec<String> = Vec::new();
                args.push(String::from_str("identify"));
                args.push(String::from_str("-format"));
                args.push(String::from_str("%w %h %m"));
                args.push(source);
                assert(texts(args@) =~= identify_args(self.items@[i as int].path@));
                BatchAction::Identify(args)
            },
            Stage::Stamp(i) => BatchAction::Stamp(self.items[i].path.clone()),
            Stage::Remove(d) => BatchAction::Remove(self.items[self.dropped[d]].thumbnail.clone()),
            Stage::Done => BatchAction::Finished(retained(self.items.as_slice(), self.dropped.as_slice())),
            Stage::Cancelled => BatchAction::Cancelled,
        }
    }
}

/// How far a batch is from its end: the phase still to go through (the batches, then the
/// last pass, then the removals), then how many batches, pictures or removals are left, then
/// how many steps are left on the current one.
pub open spec fn rank(run: &BatchRun) -> (nat, nat, nat) {
    match run.stage {
        Stage::Batch(k) => (
            3,
            (run.batches@.len() - k) as nat,
            (run.batches@[k as int]@.len() + 1) as nat,
        ),
        Stage::Retry(k, j) => (
            3,
            (run.batches@.len() - k) as nat,
            (run.batches@[k as int]@.len() - j) as nat,
        ),
        Stage::Identify(i) => (2, (run.items@.len() - i) as nat, 1),
        Stage::Stamp(i) => (2, (run.items@.len() - i) as nat, 0),
        Stage::Remove(d) => (1, (run.dropped@.len() - d) as nat, 0),
        Stage::Done => (0, 0, 0),
        Stage::Cancelled => (0, 0, 0),
    }
}

/// The lexicographic order on ranks.
pub open spec fn lex_less(a: (nat, nat, nat), b: (nat, nat, nat)) -> bool {
    a.0 < b.0 || (a.0 == b.0 && (a.1 < b.1 || (a.1 == b.1 && a.2 < b.2)))
}

/// Whether a report answers the action a stage calls for.
pub open spec fn answers(stage: Stage, report: &BatchReport) -> bool {
    match stage {
        Stage::Batch(_) => report is Printed,
        Stage::Retry(_, _) => report is Printed,
        Stage::Identify(_) => report is Identified,
        Stage::Stamp(_) => report is Stamped,
        Stage::Remove(_) => report is Removed,
        Stage::Done => false,
        Stage::Cancelled => false,
    }
}

/// The stage after member `next` of batch `k` was tried on its own: the next member, or what
/// follows the batch.
pub open spec fn after_retry(
    items: Seq<ThumbnailInfo>,
    batches: Seq<Vec<usize>>,
    dropped: Seq<usize>,
    k: int,
    next: int,
) -> Stage {
    if next < batches[k]@.len() {
        Stage::Retry(k as usize, next as usize)
    } else {
        after_batches(items, batches, dropped, k + 1)
    }
}

/// Whether `after` is `before` with one picture measured by what `identify` printed.
pub open spec fn identified_item(before: ThumbnailInfo, after: ThumbnailInfo, output: Seq<char>) -> bool {
    &&& after.path == before.path
    &&& after.thumbnail == before.thumbnail
    &&& after.size_bytes == before.size_bytes
    &&& after.width == measured(output).0
    &&& after.height == measured(output).1
    &&& after.format@ == measured(output).2
}

/// Whether the batch and the cache went from `run` and `cache` to `next` and `cache_after` on
/// `report`, at `now` on the caller's monotonic clock.
///
/// A command's output measures the pictures it printed for. A failed command stops everything
/// when the import was cancelled; otherwise a picture alone in its command is dropped with the
/// error, and the pictures of a larger one are tried one by one. A failed retry drops its
/// picture. What `identify` printed measures its picture, and a failed `identify` drops it (or
/// stops everything, when cancelled). A stamp has the picture remembered; a failed one drops
/// it. Each dropped picture is recorded among the cache's failures with its error.
pub open spec fn advanced(
    run: &BatchRun,
    cache: &ThumbnailCache,
    report: &BatchReport,
    now: u128,
    next: &BatchRun,
    cache_after: &ThumbnailCache,
) -> bool {
    &&& next.batches@ == run.batches@
    &&& next.size == run.size
    &&& cache_after.directory == cache.directory
    &&& cache_after.ttl_ns == cache.ttl_ns
    &&& cache_after.batch_size == cache.batch_size
    &&& cache_after.jobs == cache.jobs
    &&& cache_after.stats == cache.stats
    &&& match (run.stage, report) {
        (Stage::Batch(k), BatchReport::Printed(Ok(output), _)) => {
            let printed = printed_members(run.items@, run.batches@[k as int]@, run.batches@[k as int]@.len() as int);
            &&& measured_items(run.items@, next.items@, output@, printed, read_count(output@, printed))
            &&& next.dropped@ == run.dropped@
            &&& cache_after.failures@ == cache.failures@
            &&& cache_after.metadata@ == cache.metadata@
            &&& next.stage == after_batches(next.items@, run.batches@, run.dropped@, k + 1)
        },
        (Stage::Batch(k), BatchReport::Printed(Err(error), cancelled)) => {
            let members = run.batches@[k as int]@;
            &&& next.items@ == run.items@
            &&& cache_after.metadata@ == cache.metadata@
            &&& if *cancelled {
                &&& next.stage == Stage::Cancelled
                &&& next.dropped@ == run.dropped@
                &&& cache_after.failures@ == cache.failures@
            } else if members.len() == 1 {
                &&& next.dropped@ == run.dropped@.push(members[0])
                &&& cache_after.failures@ == cache.failures@.push((run.items@[members[0] as int].path, *error))
                &&& next.stage == after_batches(run.items@, run.batches@, next.dropped@, k + 1)
            } else {
                &&& next.dropped@ == run.dropped@
                &&& cache_after.failures@ == cache.failures@
                &&& next.stage == Stage::Retry(k, 0)
            }
        },
        (Stage::Retry(k, j), BatchReport::Printed(Ok(output), _)) => {
            let member = run.batches@[k as int]@[j as int];
            let printed = printed_members(run.items@, seq![member], 1);
            &&& measured_items(run.items@, next.items@, output@, printed, read_count(output@, printed))
            &&& next.dropped@ == run.dropped@
            &&& cache_after.failures@ == cache.failures@
            &&& cache_after.metadata@ == cache.metadata@
            &&& next.stage == after_retry(next.items@, run.batches@, run.dropped@, k as int, j + 1)
        },
        (Stage::Retry(k, j), BatchReport::Printed(Err(error), _)) => {
            let member = run.batches@[k as int]@[j as int];
            &&& next.items@ == run.items@
            &&& next.dropped@ == run.dropped@.push(member)
            &&& cache_after.failures@ == cache.failures@.push((run.items@[member as int].path, *error))
            &&& cache_after.metadata@ == cache.metadata@
            &&& next.stage == after_retry(run.items@, run.batches@, next.dropped@, k as int, j + 1)
        },
        (Stage::Identify(i), BatchReport::Identified(Ok(output), _)) => {
            &&& next.items@.len() == run.items@.len()
            &&& identified_item(run.items@[i as int], next.items@[i as int], output@)
            &&& forall|m: int| 0 <= m < run.items@.len() && m != i ==> next.items@[m] == run.items@[m]
            &&& next.dropped@ == run.dropped@
            &&& cache_after.failures@ == cache.failures@
            &&& cache_after.metadata@ == cache.metadata@
            &&& next.stage == Stage::Stamp(i)
        },
        (Stage::Identify(i), BatchReport::Identified(Err(error), cancelled)) => {
            &&& next.items@ == run.items@
            &&& cache_after.metadata@ == cache.metadata@
            &&& if *cancelled {
                &&& next.stage == Stage::Cancelled
                &&& next.dropped@ == run.dropped@
                &&& cache_after.failures@ == cache.failures@
            } else {
                &&& next.dropped@ == run.dropped@.push(i)
                &&& cache_after.failures@ == cache.failures@.push((run.items@[i as int].path, *error))
                &&& next.stage == final_from(run.items@, next.dropped@, i + 1)
            }
        },
        (Stage::Stamp(i), BatchReport::Stamped(Ok(stamp))) => {
            let item = run.items@[i as int];
            &&& next.items@ == run.items@
            &&& next.dropped@ == run.dropped@
            &&& cache_after.failures@ == cache.failures@
            &&& cache_after.metadata@ == cache.metadata@.insert(
                item.path@,
                CachedInfo { stamp: *stamp, inserted: now, width: item.width, height: item.height, format: item.format },
            )
            &&& next.stage == final_from(run.items@, run.dropped@, i + 1)
        },
        (Stage::Stamp(i), BatchReport::Stamped(Err(error))) => {
            &&& next.items@ == run.items@
            &&& next.dropped@ == run.dropped@.push(i)
            &&& cache_after.failures@ == cache.failures@.push((run.items@[i as int].path, *error))
            &&& cache_after.metadata@ == cache.metadata@
            &&& next.stage == final_from(run.items@, next.dropped@, i + 1)
        },
        (Stage::Remove(d), BatchReport::Removed) => {
            &&& next.items@ == run.items@
            &&& next.dropped@ == run.dropped@
            &&& cache_after.failures@ == cache.failures@
            &&& cache_after.metadata@ == cache.metadata@
            &&& next.stage == if d + 1 < run.dropped@.len() {
                Stage::Remove((d + 1) as usize)
            } else {
                Stage::Done
            }
        },
        _ => false,
    }
}

proof fn lemma_printed_members(items: Seq<ThumbnailInfo>, members: Seq<usize>, count: int)
    requires
        0 <= count <= members.len(),
    ensures
        forall|i: int| 0 <= i < printed_members(items, members, count).len() ==> members.contains(
            #[trigger] printed_members(items, members, count)[i],
        ),
    decreases count,
{
    if count > 0 {
        lemma_printed_members(items, members, count - 1);
        let before = printed_members(items, members, count - 1);
        let after = printed_members(items, members, count);
        assert forall|i: int| 0 <= i < after.len() implies members.contains(#[trigger] after[i]) by {
            if i < before.len() {
                assert(after[i] == before[i]);
            } else {
                assert(after[i] == members[count - 1]);
            }
        }
    }
}

impl BatchRun {
    fn stage_after_batches(&self, next: usize) -> (stage: Stage)
        ensures
            stage == after_batches(self.items@, self.batches@, self.dropped@, next as int),
    {
        if next < self.batches.len() {
            Stage::Batch(next)
        } else {
            Self::final_stage(&self.items, &self.dropped, 0)
        }
    }

    fn stage_after_retry(&self, k: usize, next: usize) -> (stage: Stage)
        requires
            k < self.batches@.len(),
            k < usize::MAX,
        ensures
            stage == after_retry(self.items@, self.batches@, self.dropped@, k as int, next as int),
    {
        if next < self.batches[k].len() {
            Stage::Retry(k, next)
        } else {
            self.stage_after_batches(k + 1)
        }
    }

    fn drop_picture(&mut self, cache: &mut ThumbnailCache, index: usize, error: String)
        requires
            index < old(self).items@.len(),
        ensures
            final(self).items@ == old(self).items@,
            final(self).batches@ == old(self).batches@,
            final(self).size == old(self).size,
            final(self).stage == old(self).stage,
            final(self).dropped@ == old(self).dropped@.push(index),
            final(cache).failures@ == old(cache).failures@.push((old(self).items@[index as int].path, error)),
            final(cache).metadata@ == old(cache).metadata@,
            final(cache).directory == old(cache).directory,
            final(cache).ttl_ns == old(cache).ttl_ns,
            final(cache).batch_size == old(cache).batch_size,
            final(cache).jobs == old(cache).jobs,
            final(cache).stats == old(cache).stats,
    {
        cache.failures.push((self.items[index].path.clone(), error));
        self.dropped.push(index);
    }

    /// Takes in what came of the work the last action asked for, and moves the batch on.
    pub fn advance(&mut self, cache: &mut ThumbnailCache, report: BatchReport, now: u128)
        requires
            old(self).wf(),
            answers(old(self).stage, &report),
        ensures
            final(self).wf(),
            advanced(&*old(self), &*old(cache), &report, now, &*final(self), &*final(cache)),
            lex_less(rank(&*final(self)), rank(&*old(self))),
    {
        let ghost start = *self;
        let ghost start_cache = *cache;
        assert(stage_in_bounds(self.stage, self.items@, self.batches@, self.dropped@));
        match self.stage {
            Stage::Batch(k) => {
                let count = self.batches.len();
                assert(k < count);
                let next: usize = k + 1;
                match report {
                    BatchReport::Printed(Ok(output), _) => {
                        let (_, printed) = thumbnail_command(self.items.as_slice(), self.batches[k].as_slice(), self.size);
                        proof {
                            lemma_printed_members(self.items@, self.batches@[k as int]@, self.batches@[k as int]@.len() as int);
                        }
                        measure(&mut self.items, output.as_str(), printed.as_slice());
                        self.stage = self.stage_after_batches(next);
                        let total = self.items.len();
                        proof {
                            lemma_final_from(self.items@, self.dropped@, 0);
                        }
                    },
                    BatchReport::Printed(Err(error), cancelled) => {
                        if cancelled {
                            self.stage = Stage::Cancelled;
                        } else if self.batches[k].len() == 1 {
                            let member = self.batches[k][0];
                            self.drop_picture(cache, member, error);
                            self.stage = self.stage_after_batches(k + 1);
                            let total = self.items.len();
                            proof {
                                lemma_final_from(self.items@, self.dropped@, 0);
                            }
                        } else {
                            self.stage = Stage::Retry(k, 0);
                        }
                    },
                    _ => {},
                }
            },
            Stage::Retry(k, j) => {
                let count = self.batches.len();
                let members = self.batches[k].len();
                assert(j < members);
                let next: usize = j + 1;
                match report {
                    BatchReport::Printed(Ok(output), _) => {
                        let member: Vec<usize> = vec![self.batches[k][j]];
                        assert(member@ =~= seq![self.batches@[k as int]@[j as int]]);
                        let (_, printed) = thumbnail_command(self.items.as_slice(), member.as_slice(), self.size);
                        proof {
                            lemma_printed_members(self.items@, member@, 1);
                        }
                        measure(&mut self.items, output.as_str(), printed.as_slice());
                        self.stage = self.stage_after_retry(k, next);
                        let total = self.items.len();
                        proof {
                            lemma_final_from(self.items@, self.dropped@, 0);
                        }
                    },
                    BatchReport::Printed(Err(error), _) => {
                        let member = self.batches[k][j];
                        self.drop_picture(cache, member, error);
                        self.stage = self.stage_after_retry(k, j + 1);
                        let total = self.items.len();
                        proof {
                            lemma_final_from(self.items@, self.dropped@, 0);
                        }
                    },
                    _ => {},
                }
            },
            Stage::Identify(i) => {
                let count = self.items.len();
                assert(i < count);
                let next: usize = i + 1;
                match report {
                    BatchReport::Identified(Ok(output), _) => {
                        let (width, height, format) = identified(output.as_str());
                        let item = &self.items[i];
                        let updated = ThumbnailInfo {
                            path: item.path.clone(),
                            thumbnail: item.thumbnail.clone(),
                            width,
                            height,
                            format,
                            size_bytes: item.size_bytes,
                        };
                        let mut items: Vec<ThumbnailInfo> = Vec::new();
                        std::mem::swap(&mut items, &mut self.items);
                        items.set(i, updated);
                        self.items = items;
                        self.stage = Stage::Stamp(i);
                    },
                    BatchReport::Identified(Err(error), cancelled) => {
                        if cancelled {
                            self.stage = Stage::Cancelled;
                        } else {
                            self.drop_picture(cache, i, error);
                            self.stage = Self::final_stage(&self.items, &self.dropped, next);
                            let total = self.items.len();
                            proof {
                                lemma_final_from(self.items@, self.dropped@, i + 1);
                            }
                        }
                    },
                    _ => {},
                }
            },
            Stage::Stamp(i) => {
                let count = self.items.len();
                assert(i < count);
                let next: usize = i + 1;
                match report {
                    BatchReport::Stamped(Ok(stamp)) => {
                        cache.remember(&self.items[i], stamp, now);
                        self.stage = Self::final_stage(&self.items, &self.dropped, next);
                        let total = self.items.len();
                        proof {
                            lemma_final_from(self.items@, self.dropped@, i + 1);
                        }
                    },
                    BatchReport::Stamped(Err(error)) => {
                        self.drop_picture(cache, i, error);
                        self.stage = Self::final_stage(&self.items, &self.dropped, next);
                        let total = self.items.len();
                        proof {
                            lemma_final_from(self.items@, self.dropped@, i + 1);
                        }
                    },
                    _ => {},
                }
            },
            Stage::Remove(d) => {
                let count = self.dropped.len();
                assert(d < count);
                self.stage = if d + 1 < count {
                    Stage::Remove(d + 1)
                } else {
                    Stage::Done
                };
            },
            Stage::Done => {},
            Stage::Cancelled => {},
        }
    }
}

/// Whether `after` holds the same pictures as `before`, in the same places: each with the same
/// file, thumbnail and length, whatever has been measured of it since.
pub open spec fn same_pictures(before: Seq<ThumbnailInfo>, after: Seq<ThumbnailInfo>) -> bool {
    &&& after.len() == before.len()
    &&& forall|i: int|
        0 <= i < before.len() ==> {
            &&& (#[trigger] after[i]).path == before[i].path
            &&& after[i].thumbnail == before[i].thumbnail
            &&& after[i].size_bytes == before[i].size_bytes
        }
}

/// Whether the failures are those held when the batch started followed, one for one and in
/// order, by a failure for each dropped picture, carrying its file.
pub open spec fn failures_recorded(
    failures: Seq<(String, String)>,
    start: Seq<(String, String)>,
    items: Seq<ThumbnailInfo>,
    dropped: Seq<usize>,
) -> bool {
    &&& failures.len() == start.len() + dropped.len()
    &&& failures.take(start.len() as int) == start
    &&& forall|t: int|
        0 <= t < dropped.len() ==> #[trigger] failures[start.len() + t].0 == items[dropped[t] as int].path
}

/// Every step of a batch keeps its pictures where they are, and records exactly one failure,
/// with its file, for each picture it drops.
pub proof fn lemma_step_keeps_record(
    run: &BatchRun,
    cache: &ThumbnailCache,
    report: &BatchReport,
    now: u128,
    next: &BatchRun,
    cache_after: &ThumbnailCache,
    original: Seq<ThumbnailInfo>,
    start: Seq<(String, String)>,
)
    requires
        run.wf(),
        advanced(run, cache, report, now, next, cache_after),
        same_pictures(original, run.items@),
        failures_recorded(cache.failures@, start, run.items@, run.dropped@),
    ensures
        same_pictures(original, next.items@),
        failures_recorded(cache_after.failures@, start, next.items@, next.dropped@),
{
    let before = run.items@;
    let after = next.items@;
    assert(same_pictures(before, after)) by {
        match (run.stage, report) {
            (Stage::Batch(k), BatchReport::Printed(Ok(output), _)) => {
                let printed = printed_members(before, run.batches@[k as int]@, run.batches@[k as int]@.len() as int);
                let count = read_count(output@, printed);
                assert forall|i: int| 0 <= i < before.len() implies {
                    &&& (#[trigger] after[i]).path == before[i].path
                    &&& after[i].thumbnail == before[i].thumbnail
                    &&& after[i].size_bytes == before[i].size_bytes
                } by {
                    let _ = crate::thumbnails::last_print(printed, count, i);
                }
            },
            (Stage::Retry(k, j), BatchReport::Printed(Ok(output), _)) => {
                let printed = printed_members(before, seq![run.batches@[k as int]@[j as int]], 1);
                let count = read_count(output@, printed);
                assert forall|i: int| 0 <= i < before.len() implies {
                    &&& (#[trigger] after[i]).path == before[i].path
                    &&& after[i].thumbnail == before[i].thumbnail
                    &&& after[i].size_bytes == before[i].size_bytes
                } by {
                    let _ = crate::thumbnails::last_print(printed, count, i);
                }
            },
            (Stage::Identify(i), BatchReport::Identified(Ok(output), _)) => {
                assert forall|m: int| 0 <= m < before.len() implies {
                    &&& (#[trigger] after[m]).path == before[m].path
                    &&& after[m].thumbnail == before[m].thumbnail
                    &&& after[m].size_bytes == before[m].size_bytes
                } by {
                    if m != i {
                        assert(after[m] == before[m]);
                    }
                }
            },
            _ => {},
        }
    }
    assert forall|t: int| 0 <= t < next.dropped@.len() implies #[trigger] cache_after.failures@[start.len() + t].0
        == after[next.dropped@[t] as int].path by {
        if t < run.dropped@.len() {
            assert(next.dropped@[t] == run.dropped@[t]);
            assert(cache_after.failures@[start.len() + t] == cache.failures@[start.len() + t]);
            assert(cache.failures@[start.len() + t].0 == before[run.dropped@[t] as int].path);
        }
    }
    assert(cache_after.failures@.take(start.len() as int) =~= start) by {
        assert(cache.failures@.take(start.len() as int) == start);
        if cache_after.failures@ != cache.failures@ {
            assert forall|t: int| 0 <= t < start.len() implies cache_after.failures@.take(start.len() as int)[t]
                == start[t] by {
                assert(cache_after.failures@[t] == cache.failures@[t]);
                assert(cache.failures@.take(start.len() as int)[t] == start[t]);
            }
        }
    }
}

/// A batch keeps the pictures it does not drop in the order they came: when its pictures are
/// the ones it started with, what it gives at the end are the pictures not dropped, each on
/// its own file and thumbnail, in their original order.
pub proof fn lemma_kept_in_order(
    original: Seq<ThumbnailInfo>,
    items: Seq<ThumbnailInfo>,
    dropped: Seq<usize>,
    count: int,
)
    requires
        same_pictures(original, items),
        0 <= count <= items.len(),
    ensures
        kept(items, dropped, count).len() == kept(original, dropped, count).len(),
        forall|i: int|
            0 <= i < kept(items, dropped, count).len() ==> {
                &&& (#[trigger] kept(items, dropped, count)[i]).path == kept(original, dropped, count)[i].path
                &&& kept(items, dropped, count)[i].thumbnail == kept(original, dropped, count)[i].thumbnail
            },
    decreases count,
{
    if count > 0 {
        lemma_kept_in_order(original, items, dropped, count - 1);
        let a = kept(items, dropped, count - 1);
        let b = kept(original, dropped, count - 1);
        if !dropped.contains((count - 1) as usize) {
            assert(items[count - 1].path == original[count - 1].path);
            assert forall|i: int| 0 <= i < kept(items, dropped, count).len() implies {
                &&& (#[trigger] kept(items, dropped, count)[i]).path == kept(original, dropped, count)[i].path
                &&& kept(items, dropped, count)[i].thumbnail == kept(original, dropped, count)[i].thumbnail
            } by {
                if i < a.len() {
                    assert(kept(items, dropped, count)[i] == a[i]);
                    assert(kept(original, dropped, count)[i] == b[i]);
                }
            }
        }
    }
}

/// Whether the batches, and each of them, are no longer than a machine count can hold, as
/// every list in memory is.
pub open spec fn lengths_fit(batches: Seq<Vec<usize>>) -> bool {
    batches.len() <= usize::MAX && forall|k: int| 0 <= k < batches.len() ==> #[trigger] batches[k]@.len() <= usize::MAX
}

/// Whether no picture is in two places of the batches.
pub open spec fn distinct_members(batches: Seq<Vec<usize>>) -> bool {
    forall|a: int, b: int, c: int, d: int|
        0 <= a < batches.len() && 0 <= b < batches[a]@.len() && 0 <= c < batches.len() && 0 <= d
            < batches[c]@.len() && (a != c || b != d) ==> #[trigger] batches[a]@[b] != #[trigger] batches[c]@[d]
}

/// Whether picture `m` sits in a batch before batch `k`, or in batch `k` before position `j`.
pub open spec fn sits_before(batches: Seq<Vec<usize>>, k: int, j: int, m: usize) -> bool {
    exists|a: int, b: int|
        0 <= a < batches.len() && 0 <= b < batches[a]@.len() && (a < k || (a == k && b < j))
            && #[trigger] batches[a]@[b] == m
}

/// Whether no picture was dropped twice, and, while the commands run, every dropped picture was
/// in a command already tried.
pub open spec fn drops_accounted(run: &BatchRun) -> bool {
    &&& run.dropped@.no_duplicates()
    &&& match run.stage {
        Stage::Batch(k) => forall|d: int|
            0 <= d < run.dropped@.len() ==> sits_before(run.batches@, k as int, 0, #[trigger] run.dropped@[d]),
        Stage::Retry(k, j) => forall|d: int|
            0 <= d < run.dropped@.len() ==> sits_before(run.batches@, k as int, j as int, #[trigger] run.dropped@[d]),
        _ => true,
    }
}

proof fn lemma_final_from_kind(items: Seq<ThumbnailInfo>, dropped: Seq<usize>, from: int)
    ensures
        !(final_from(items, dropped, from) is Batch),
        !(final_from(items, dropped, from) is Retry),
    decreases items.len() - from,
{
    if 0 <= from < items.len() && dropped.contains(from as usize) {
        lemma_final_from_kind(items, dropped, from + 1);
    }
}

proof fn lemma_sits_before_widens(batches: Seq<Vec<usize>>, k: int, j: int, k2: int, j2: int, m: usize)
    requires
        sits_before(batches, k, j, m),
        k < k2 || (k == k2 && j <= j2),
    ensures
        sits_before(batches, k2, j2, m),
{
    let (a, b) = choose|a: int, b: int|
        0 <= a < batches.len() && 0 <= b < batches[a]@.len() && (a < k || (a == k && b < j))
            && #[trigger] batches[a]@[b] == m;
    assert(batches[a]@[b] == m);
}

proof fn lemma_next_stage_accounts(run: &BatchRun, next: &BatchRun, k: int, j: int)
    requires
        next.batches@ == run.batches@,
        next.dropped@.no_duplicates(),
        forall|d: int| 0 <= d < next.dropped@.len() ==> sits_before(run.batches@, k, j, #[trigger] next.dropped@[d]),
        match next.stage {
            Stage::Batch(k2) => k <= k2 && (k < k2 || j <= 0),
            Stage::Retry(k2, j2) => k < k2 || (k == k2 && j <= j2),
            _ => true,
        },
    ensures
        drops_accounted(next),
{
    match next.stage {
        Stage::Batch(k2) => {
            assert forall|d: int| 0 <= d < next.dropped@.len() implies sits_before(
                next.batches@,
                k2 as int,
                0,
                #[trigger] next.dropped@[d],
            ) by {
                lemma_sits_before_widens(run.batches@, k, j, k2 as int, 0, next.dropped@[d]);
            }
        },
        Stage::Retry(k2, j2) => {
            assert forall|d: int| 0 <= d < next.dropped@.len() implies sits_before(
                next.batches@,
                k2 as int,
                j2 as int,
                #[trigger] next.dropped@[d],
            ) by {
                lemma_sits_before_widens(run.batches@, k, j, k2 as int, j2 as int, next.dropped@[d]);
            }
        },
        _ => {},
    }
}

proof fn lemma_push_new(dropped: Seq<usize>, m: usize)
    requires
        dropped.no_duplicates(),
        !dropped.contains(m),
    ensures
        dropped.push(m).no_duplicates(),
{
    assert forall|a: int, b: int| 0 <= a < b < dropped.push(m).len() implies dropped.push(m)[a] != dropped.push(m)[b] by {
        if b == dropped.len() {
            assert(dropped.push(m)[a] == dropped[a]);
        }
    }
}

/// No step of a batch drops a picture twice: every picture it drops while its commands run
/// was in a command it has tried, and every one it drops later was not dropped yet.
pub proof fn lemma_step_drops_once(
    run: &BatchRun,
    cache: &ThumbnailCache,
    report: &BatchReport,
    now: u128,
    next: &BatchRun,
    cache_after: &ThumbnailCache,
)
    requires
        run.wf(),
        lengths_fit(run.batches@),
        distinct_members(run.batches@),
        drops_accounted(run),
        advanced(run, cache, report, now, next, cache_after),
    ensures
        drops_accounted(next),
{
    let batches = run.batches@;
    lemma_final_from_kind(next.items@, next.dropped@, 0);
    lemma_final_from_kind(run.items@, next.dropped@, 0);
    match (run.stage, report) {
        (Stage::Batch(k), BatchReport::Printed(Ok(_), _)) => {
            lemma_next_stage_accounts(run, next, k as int, 0);
        },
        (Stage::Batch(k), BatchReport::Printed(Err(_), cancelled)) => {
            if *cancelled {
            } else if batches[k as int]@.len() == 1 {
                let m = batches[k as int]@[0];
                if run.dropped@.contains(m) {
                    let d = choose|d: int| 0 <= d < run.dropped@.len() && run.dropped@[d] == m;
                    assert(sits_before(batches, k as int, 0, run.dropped@[d]));
                    let (a, b) = choose|a: int, b: int|
                        0 <= a < batches.len() && 0 <= b < batches[a]@.len() && (a < k || (a == k && b < 0))
                            && #[trigger] batches[a]@[b] == m;
                    assert(batches[a]@[b] != batches[k as int]@[0]);
                }
                lemma_push_new(run.dropped@, m);
                assert forall|d: int| 0 <= d < next.dropped@.len() implies sits_before(
                    batches,
                    k + 1,
                    0,
                    #[trigger] next.dropped@[d],
                ) by {
                    if d < run.dropped@.len() {
                        assert(next.dropped@[d] == run.dropped@[d]);
                        lemma_sits_before_widens(batches, k as int, 0, k + 1, 0, run.dropped@[d]);
                    } else {
                        assert(next.dropped@[d] == m);
                        assert(batches[k as int]@[0] == m);
                    }
                }
                lemma_next_stage_accounts(run, next, k + 1, 0);
            } else {
                lemma_next_stage_accounts(run, next, k as int, 0);
            }
        },
        (Stage::Retry(k, j), BatchReport::Printed(Ok(_), _)) => {
            assert forall|d: int| 0 <= d < next.dropped@.len() implies sits_before(
                batches,
                k as int,
                j + 1,
                #[trigger] next.dropped@[d],
            ) by {
                lemma_sits_before_widens(batches, k as int, j as int, k as int, j + 1, next.dropped@[d]);
            }
            lemma_next_stage_accounts(run, next, k as int, j + 1);
        },
        (Stage::Retry(k, j), BatchReport::Printed(Err(_), _)) => {
            let m = batches[k as int]@[j as int];
            if run.dropped@.contains(m) {
                let d = choose|d: int| 0 <= d < run.dropped@.len() && run.dropped@[d] == m;
                assert(sits_before(batches, k as int, j as int, run.dropped@[d]));
                let (a, b) = choose|a: int, b: int|
                    0 <= a < batches.len() && 0 <= b < batches[a]@.len() && (a < k || (a == k && b < j))
                        && #[trigger] batches[a]@[b] == m;
                assert(batches[a]@[b] != batches[k as int]@[j as int]);
            }
            lemma_push_new(run.dropped@, m);
            assert forall|d: int| 0 <= d < next.dropped@.len() implies sits_before(
                batches,
                k as int,
                j + 1,
                #[trigger] next.dropped@[d],
            ) by {
                if d < run.dropped@.len() {
                    assert(next.dropped@[d] == run.dropped@[d]);
                    lemma_sits_before_widens(batches, k as int, j as int, k as int, j + 1, run.dropped@[d]);
                } else {
                    assert(next.dropped@[d] == m);
                    assert(batches[k as int]@[j as int] == m);
                }
            }
            lemma_next_stage_accounts(run, next, k as int, j + 1);
        },
        (Stage::Identify(i), BatchReport::Identified(Err(_), cancelled)) => {
            if !*cancelled {
                lemma_push_new(run.dropped@, i);
                lemma_final_from_kind(run.items@, next.dropped@, i + 1);
            }
        },
        (Stage::Stamp(i), BatchReport::Stamped(Err(_))) => {
            lemma_push_new(run.dropped@, i);
            lemma_final_from_kind(run.items@, next.dropped@, i + 1);
        },
        (Stage::Stamp(i), BatchReport::Stamped(Ok(_))) => {
            lemma_final_from_kind(run.items@, run.dropped@, i + 1);
        },
        _ => {},
    }
}

/// Whether `runs` is a batch stepped from its first state to its last: each state well formed,
/// and each step taken on the report at that position, as [`BatchRun::advance`] takes it.
pub open spec fn stepped(
    runs: Seq<BatchRun>,
    caches: Seq<ThumbnailCache>,
    reports: Seq<BatchReport>,
    nows: Seq<u128>,
) -> bool {
    &&& runs.len() == reports.len() + 1
    &&& caches.len() == runs.len()
    &&& nows.len() == reports.len()
    &&& forall|i: int| 0 <= i < runs.len() ==> (#[trigger] runs[i]).wf()
    &&& forall|i: int|
        0 <= i < reports.len() ==> advanced(&runs[i], &caches[i], #[trigger] &reports[i], nows[i], &runs[i + 1], &caches[i + 1])
}

proof fn lemma_prefix_holds(
    runs: Seq<BatchRun>,
    caches: Seq<ThumbnailCache>,
    reports: Seq<BatchReport>,
    nows: Seq<u128>,
    n: int,
)
    requires
        stepped(runs, caches, reports, nows),
        0 <= n < runs.len(),
        runs[0].dropped@.len() == 0,
        distinct_members(runs[0].batches@),
        lengths_fit(runs[0].batches@),
    ensures
        runs[n].batches@ == runs[0].batches@,
        same_pictures(runs[0].items@, runs[n].items@),
        failures_recorded(caches[n].failures@, caches[0].failures@, runs[n].items@, runs[n].dropped@),
        drops_accounted(&runs[n]),
    decreases n,
{
    if n == 0 {
        let start = caches[0].failures@;
        assert(start.take(start.len() as int) =~= start);
        assert(runs[0].items@.len() == runs[0].items@.len());
    } else {
        lemma_prefix_holds(runs, caches, reports, nows, n - 1);
        let k = n - 1;
        assert(advanced(&runs[k], &caches[k], &reports[k], nows[k], &runs[k + 1], &caches[k + 1]));
        lemma_step_keeps_record(
            &runs[k],
            &caches[k],
            &reports[k],
            nows[k],
            &runs[k + 1],
            &caches[k + 1],
            runs[0].items@,
            caches[0].failures@,
        );
        lemma_step_drops_once(&runs[k], &caches[k], &reports[k], nows[k], &runs[k + 1], &caches[k + 1]);
    }
}

/// The whole of a batch, from the state [`BatchRun::new`] makes of misses that name no picture
/// twice, through the steps [`BatchRun::advance`] takes, to wherever it stands: its pictures stay
/// where they were, each on its file and thumbnail; the failures are those it started with and
/// then exactly one for each dropped picture, carrying its file; no picture is dropped twice; and
/// what it gives when done is the pictures not dropped, in their original order.
pub proof fn lemma_whole_batch(
    runs: Seq<BatchRun>,
    caches: Seq<ThumbnailCache>,
    reports: Seq<BatchReport>,
    nows: Seq<u128>,
    misses: Seq<usize>,
    size: nat,
)
    requires
        stepped(runs, caches, reports, nows),
        runs[0].dropped@.len() == 0,
        size > 0,
        misses.no_duplicates(),
        runs[0].batches@.map_values(|batch: Vec<usize>| batch@) == crate::thumbnails::chunks_of(misses, size),
        lengths_fit(runs[0].batches@),
    ensures
        ({
            let last = runs.last();
            let count = last.items@.len() as int;
            &&& same_pictures(runs[0].items@, last.items@)
            &&& failures_recorded(caches.last().failures@, caches[0].failures@, last.items@, last.dropped@)
            &&& last.dropped@.no_duplicates()
            &&& kept(last.items@, last.dropped@, count).len() == kept(runs[0].items@, last.dropped@, count).len()
            &&& forall|i: int|
                0 <= i < kept(last.items@, last.dropped@, count).len() ==> {
                    &&& (#[trigger] kept(last.items@, last.dropped@, count)[i]).path == kept(
                        runs[0].items@,
                        last.dropped@,
                        count,
                    )[i].path
                    &&& kept(last.items@, last.dropped@, count)[i].thumbnail == kept(
                        runs[0].items@,
                        last.dropped@,
                        count,
                    )[i].thumbnail
                }
        }),
{
    let views = runs[0].batches@.map_values(|batch: Vec<usize>| batch@);
    crate::thumbnails::lemma_chunks_distinct(misses, size);
    assert(distinct_members(runs[0].batches@)) by {
        assert forall|a: int, b: int, c: int, d: int|
            0 <= a < runs[0].batches@.len() && 0 <= b < runs[0].batches@[a]@.len() && 0 <= c < runs[0].batches@.len()
                && 0 <= d < runs[0].batches@[c]@.len() && (a != c || b != d) implies #[trigger] runs[0].batches@[a]@[b]
            != #[trigger] runs[0].batches@[c]@[d] by {
            assert(views[a] == runs[0].batches@[a]@);
            assert(views[c] == runs[0].batches@[c]@);
            assert(views[a][b] != views[c][d]);
        }
    }
    let n = runs.len() - 1;
    lemma_prefix_holds(runs, caches, reports, nows, n);
    let last = runs[n];
    lemma_kept_in_order(runs[0].items@, last.items@, last.dropped@, last.items@.len() as int);
}

} // verus!
