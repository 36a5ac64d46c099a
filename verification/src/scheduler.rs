//! Which work comes next: files are prepared one at a time, and the trials
//! of prepared files are handed out to whoever asks.
use crate::models::{FileState, PreparedData, TrialConfig};
use vstd::prelude::*;

verus! {

/// A piece of work for a thread.
#[derive(Debug, Clone, Copy, PartialEq, Eq, Structural)]
pub enum WorkTask {
    /// Run a trial of a file.
    Trial { file_idx: usize, trial_idx: usize },
    /// Prepare the next file, if there is memory for it.
    Prepare,
    /// Ask again when something has changed.
    Wait,
    /// All files are done.
    Terminate,
}

/// What comes of preparing a file.
#[derive(Debug, Clone, Copy, PartialEq, Eq, Structural)]
pub enum Preparation {
    /// The file could not be loaded.
    Failed,
    /// There is nothing to do for the file.
    Skipped,
    /// The file can be written right away.
    Write,
    /// The first trial of the file is to be run.
    Trial { trial_idx: usize },
}

/// How the size of a file has changed.
#[derive(Debug, Clone, Copy, PartialEq, Eq, Structural)]
pub enum SizeChange {
    Saved(u64),
    Same,
    Grown(u64),
}

/// How far the work on a file is.
#[derive(Debug, Clone, Copy, PartialEq, Eq, Structural)]
pub enum FileProgress {
    Done,
    Part { done: usize, total: usize },
    Unknown,
}

/// All files and the state of the work on them.
#[derive(Debug)]
pub struct Scheduler {
    files: Vec<FileState>,
    active_indices: Vec<usize>,
    next_file_to_prepare: usize,
    finished_files: usize,
    total_orig_bytes: u128,
    total_new_bytes: u128,
}

/// What a scheduler is.
pub struct SchedulerView {
    pub files: Seq<FileState>,
    /// The files whose trials are being run.
    pub active: Seq<usize>,
    /// The first file that has not been taken up.
    pub next: int,
    pub finished: int,
    pub total_orig: int,
    pub total_new: int,
}

/// A trial of the file can be handed out.
pub open spec fn has_trial(f: FileState) -> bool {
    f.is_prepared && !f.is_preparing && f.next_trial_idx < f.trials@.len()
}

/// The place in `active` of the first file that has a trial to hand out, or
/// the length.
pub open spec fn first_open(files: Seq<FileState>, active: Seq<usize>) -> int
    decreases active.len(),
{
    if active.len() == 0 || has_trial(files[active[0] as int]) {
        0
    } else {
        1 + first_open(files, active.skip(1))
    }
}

pub open spec fn any_preparing(files: Seq<FileState>) -> bool {
    exists|i: int| 0 <= i < files.len() && (#[trigger] files[i]).is_preparing
}

/// The number of files that are done.
pub open spec fn count_processed(files: Seq<FileState>) -> nat
    decreases files.len(),
{
    if files.len() == 0 {
        0
    } else {
        count_processed(files.drop_last()) + if files.last().is_processed { 1nat } else { 0nat }
    }
}

/// The original size of all files that are done.
pub open spec fn processed_bytes(files: Seq<FileState>) -> int
    decreases files.len(),
{
    if files.len() == 0 {
        0
    } else {
        processed_bytes(files.drop_last()) + if files.last().is_processed { files.last().task.orig_size as int } else {
            0
        }
    }
}

/// The work that comes next.
pub open spec fn next_task(s: SchedulerView) -> WorkTask {
    let k = first_open(s.files, s.active);
    if s.finished == s.files.len() {
        WorkTask::Terminate
    } else if k < s.active.len() {
        WorkTask::Trial { file_idx: s.active[k], trial_idx: s.files[s.active[k] as int].next_trial_idx }
    } else if any_preparing(s.files) {
        WorkTask::Wait
    } else if s.next < s.files.len() {
        WorkTask::Prepare
    } else {
        WorkTask::Wait
    }
}

/// A file whose trials are under way.
pub open spec fn is_running(f: FileState) -> bool {
    &&& f.is_prepared
    &&& !f.is_preparing
    &&& !f.is_processed
    &&& f.total_trials == f.trials@.len()
    &&& f.completed_trials <= f.next_trial_idx <= f.trials@.len()
    &&& f.trials@.len() > 0
}

/// A file that is only to be written: nothing is tried.
pub open spec fn is_to_write(f: FileState) -> bool {
    f.is_prepared && !f.is_preparing && !f.is_processed && f.trials@.len() == 0
}

impl SchedulerView {
    pub open spec fn is_active(self, i: int) -> bool {
        exists|k: int| 0 <= k < self.active.len() && #[trigger] self.active[k] == i
    }

    /// Files are taken up in order, and one at a time is being prepared. A
    /// file that has been taken up is being prepared, or has trials under
    /// way, or is to be written, or is done. The counts are right.
    pub open spec fn wf(self) -> bool {
        &&& 0 <= self.next <= self.files.len()
        &&& forall|i: int|
            self.next <= i < self.files.len() ==> {
                let f = #[trigger] self.files[i];
                !f.is_preparing && !f.is_prepared && !f.is_processed && f.next_trial_idx == 0 && f.completed_trials == 0
            }
        &&& forall|i: int|
            0 <= i < self.next ==> {
                let f = #[trigger] self.files[i];
                ||| f.is_preparing && !f.is_prepared && !f.is_processed && f.next_trial_idx == 0 && f.completed_trials
                    == 0
                ||| f.is_prepared && !f.is_preparing && f.is_processed
                ||| is_running(f) && self.is_active(i)
                ||| is_to_write(f)
            }
        &&& forall|i: int, j: int|
            0 <= i < self.files.len() && 0 <= j < self.files.len() && (#[trigger] self.files[i]).is_preparing && (
            #[trigger] self.files[j]).is_preparing ==> i == j
        &&& forall|k: int|
            0 <= k < self.active.len() ==> 0 <= #[trigger] self.active[k] < self.next && is_running(
                self.files[self.active[k] as int],
            )
        &&& self.finished == count_processed(self.files)
        &&& self.total_orig == processed_bytes(self.files)
        &&& 0 <= self.total_new <= self.finished * u64::MAX
    }

    /// A thread holds work: a file is being prepared or written, or a trial
    /// has been handed out and not come back.
    pub open spec fn is_busy(self) -> bool {
        exists|i: int|
            0 <= i < self.next && {
                let f = #[trigger] self.files[i];
                ||| f.is_preparing
                ||| is_to_write(f)
                ||| is_running(f) && (f.completed_trials < f.next_trial_idx || f.completed_trials == f.total_trials)
            }
    }
}

impl View for Scheduler {
    type V = SchedulerView;

    closed spec fn view(&self) -> SchedulerView {
        SchedulerView {
            files: self.files@,
            active: self.active_indices@,
            next: self.next_file_to_prepare as int,
            finished: self.finished_files as int,
            total_orig: self.total_orig_bytes as int,
            total_new: self.total_new_bytes as int,
        }
    }
}

/// The state at the start, when nothing has been done for any file.
pub open spec fn start(files: Seq<FileState>) -> SchedulerView {
    SchedulerView { files, active: Seq::empty(), next: 0, finished: 0, total_orig: 0, total_new: 0 }
}

/// Nothing has been done for any of the files.
pub open spec fn all_fresh(files: Seq<FileState>) -> bool {
    forall|i: int| 0 <= i < files.len() ==> (#[trigger] files[i]).is_fresh()
}

/// The state when the next piece of work has been asked for: a trial that is
/// handed out counts as taken.
pub open spec fn after_asking(s: SchedulerView) -> SchedulerView {
    match next_task(s) {
        WorkTask::Trial { file_idx, trial_idx } => SchedulerView {
            files: s.files.update(
                file_idx as int,
                FileState { next_trial_idx: (trial_idx + 1) as usize, ..s.files[file_idx as int] },
            ),
            ..s
        },
        _ => s,
    }
}

/// The state when the next file has been taken up.
pub open spec fn after_beginning(s: SchedulerView) -> SchedulerView {
    SchedulerView {
        files: s.files.update(s.next, FileState { is_preparing: true, ..s.files[s.next] }),
        next: s.next + 1,
        ..s
    }
}

proof fn lemma_count_update(files: Seq<FileState>, i: int, f: FileState)
    requires
        0 <= i < files.len(),
    ensures
        count_processed(files.update(i, f)) == count_processed(files) - (if files[i].is_processed { 1int } else { 0 })
            + (if f.is_processed { 1int } else { 0 }),
        processed_bytes(files.update(i, f)) == processed_bytes(files) - (if files[i].is_processed {
            files[i].task.orig_size as int
        } else {
            0
        }) + (if f.is_processed { f.task.orig_size as int } else { 0 }),
    decreases files.len(),
{
    let next = files.update(i, f);
    if i == files.len() - 1 {
        assert(next.drop_last() =~= files.drop_last());
    } else {
        assert(next.drop_last() =~= files.drop_last().update(i, f));
        assert(next.last() == files.last());
        lemma_count_update(files.drop_last(), i, f);
    }
}

pub proof fn lemma_count_bound(files: Seq<FileState>)
    ensures
        0 <= count_processed(files) <= files.len(),
        0 <= processed_bytes(files) <= count_processed(files) * u64::MAX,
        (count_processed(files) == files.len()) == (forall|i: int|
            0 <= i < files.len() ==> (#[trigger] files[i]).is_processed),
    decreases files.len(),
{
    if files.len() > 0 {
        let t = files.drop_last();
        lemma_count_bound(t);
        if count_processed(files) == files.len() {
            assert forall|i: int| 0 <= i < files.len() implies (#[trigger] files[i]).is_processed by {
                if i < t.len() {
                    assert(t[i].is_processed);
                }
            }
        }
        if forall|i: int| 0 <= i < files.len() ==> (#[trigger] files[i]).is_processed {
            assert forall|i: int| 0 <= i < t.len() implies (#[trigger] t[i]).is_processed by {
                assert(files[i].is_processed);
            }
            assert(files[files.len() - 1].is_processed);
        }
        assert(count_processed(files) * u64::MAX == count_processed(t) * u64::MAX + (if files.last().is_processed {
            u64::MAX as int
        } else {
            0
        })) by (nonlinear_arith)
            requires
                count_processed(files) == count_processed(t) + (if files.last().is_processed { 1int } else { 0 }),
        ;
    }
}

proof fn lemma_none_processed(files: Seq<FileState>)
    requires
        forall|i: int| 0 <= i < files.len() ==> !(#[trigger] files[i]).is_processed,
    ensures
        count_processed(files) == 0,
        processed_bytes(files) == 0,
    decreases files.len(),
{
    if files.len() > 0 {
        let t = files.drop_last();
        assert forall|i: int| 0 <= i < t.len() implies !(#[trigger] t[i]).is_processed by {
            assert(!files[i].is_processed);
        }
        assert(!files[files.len() - 1].is_processed);
        lemma_none_processed(t);
    }
}

pub proof fn lemma_first_open(files: Seq<FileState>, active: Seq<usize>)
    ensures
        0 <= first_open(files, active) <= active.len(),
        first_open(files, active) < active.len() ==> has_trial(files[active[first_open(files, active)] as int]),
        forall|k: int| 0 <= k < first_open(files, active) ==> !has_trial(files[#[trigger] active[k] as int]),
    decreases active.len(),
{
    if active.len() > 0 && !has_trial(files[active[0] as int]) {
        let t = active.skip(1);
        lemma_first_open(files, t);
        assert forall|k: int| 0 <= k < first_open(files, active) implies !has_trial(
            files[#[trigger] active[k] as int],
        ) by {
            if k > 0 {
                assert(!has_trial(files[t[k - 1] as int]));
            }
        }
    }
}

/// The state at the start is in order.
pub proof fn lemma_wf_start(files: Seq<FileState>)
    requires
        all_fresh(files),
    ensures
        start(files).wf(),
{
    assert forall|i: int| 0 <= i < files.len() implies !(#[trigger] files[i]).is_processed by {
        assert(files[i].is_fresh());
    }
    lemma_none_processed(files);
    assert forall|i: int| 0 <= i < files.len() implies {
        let f = #[trigger] start(files).files[i];
        !f.is_preparing && !f.is_prepared && !f.is_processed && f.next_trial_idx == 0 && f.completed_trials == 0
    } by {
        assert(files[i].is_fresh());
    }
}

/// Asking for work keeps the state in order. A trial that is handed out is
/// one of a file whose trials are under way.
pub proof fn lemma_wf_asking(s: SchedulerView)
    requires
        s.wf(),
    ensures
        after_asking(s).wf(),
        next_task(s) matches WorkTask::Trial { file_idx, trial_idx } ==> {
            let f = s.files[file_idx as int];
            file_idx < s.next && is_running(f) && trial_idx == f.next_trial_idx && trial_idx < f.trials@.len()
        },
{
    lemma_first_open(s.files, s.active);
    if let WorkTask::Trial { file_idx, trial_idx } = next_task(s) {
        let k = first_open(s.files, s.active);
        assert(s.active[k] < s.next);
        lemma_wf_running(s, after_asking(s), file_idx as int);
    }
}

impl Scheduler {
    /// A scheduler for files that nothing has been done for.
    pub fn new(files: Vec<FileState>) -> (s: Scheduler)
        requires
            all_fresh(files@),
        ensures
            s@.wf(),
            s@ == start(files@),
    {
        let s = Scheduler {
            files,
            active_indices: Vec::new(),
            next_file_to_prepare: 0,
            finished_files: 0,
            total_orig_bytes: 0,
            total_new_bytes: 0,
        };
        assert(s@.active =~= Seq::empty());
        proof {
            lemma_wf_start(files@);
        }
        s
    }

    fn find_open(&self) -> (k: usize)
        requires
            self@.wf(),
        ensures
            k == first_open(self@.files, self@.active),
            k <= self@.active.len(),
    {
        let ghost files = self.files@;
        let ghost active = self.active_indices@;
        let mut k: usize = 0;
        assert(active.skip(0) =~= active);
        while k < self.active_indices.len()
            invariant
                k <= active.len(),
                active == self.active_indices@,
                files == self.files@,
                self@.wf(),
                first_open(files, active) == k + first_open(files, active.skip(k as int)),
            decreases active.len() - k,
        {
            let i: usize = self.active_indices[k];
            let ghost t = active.skip(k as int);
            assert(t[0] == active[k as int]);
            assert(t.skip(1) =~= active.skip(k + 1));
            assert(self@.active[k as int] < self@.next);
            let f = &self.files[i];
            if f.is_prepared && !f.is_preparing && f.next_trial_idx < f.trials.len() {
                return k;
            }
            k = k + 1;
        }
        k
    }

    fn is_preparing(&self) -> (r: bool)
        ensures
            r == any_preparing(self@.files),
    {
        let mut i: usize = 0;
        while i < self.files.len()
            invariant
                i <= self.files@.len(),
                forall|j: int| 0 <= j < i ==> !(#[trigger] self.files@[j]).is_preparing,
            decreases self.files@.len() - i,
        {
            if self.files[i].is_preparing {
                assert(self@.files[i as int].is_preparing);
                return true;
            }
            i = i + 1;
        }
        false
    }

    /// The next piece of work. A trial that is handed out counts as taken.
    pub fn next_work(&mut self) -> (w: WorkTask)
        requires
            old(self)@.wf(),
        ensures
            final(self)@.wf(),
            w == next_task(old(self)@),
            final(self)@ == after_asking(old(self)@),
            w matches WorkTask::Trial { file_idx, trial_idx } ==> file_idx < old(self)@.files.len() && trial_idx
                < old(self)@.files[file_idx as int].trials@.len(),
    {
        if self.finished_files == self.files.len() {
            return WorkTask::Terminate;
        }
        let k: usize = self.find_open();
        proof {
            lemma_first_open(self@.files, self@.active);
            lemma_wf_asking(self@);
        }
        if k < self.active_indices.len() {
            let file_idx: usize = self.active_indices[k];
            assert(self@.active[k as int] < self@.next);
            let trial_idx: usize = self.files[file_idx].next_trial_idx;
            self.files[file_idx].next_trial_idx = trial_idx + 1;
            assert(self.files@ =~= after_asking(old(self)@).files);
            return WorkTask::Trial { file_idx, trial_idx };
        }
        if !self.is_preparing() && self.next_file_to_prepare < self.files.len() {
            WorkTask::Prepare
        } else {
            WorkTask::Wait
        }
    }
}

/// A change to a file that keeps its trials under way keeps the state in
/// order.
proof fn lemma_wf_running(s: SchedulerView, t: SchedulerView, i: int)
    requires
        s.wf(),
        0 <= i < s.next,
        is_running(s.files[i]),
        t.files == s.files.update(i, t.files[i]),
        is_running(t.files[i]),
        t.files[i].task == s.files[i].task,
        t.active == s.active,
        t.next == s.next,
        t.finished == s.finished,
        t.total_orig == s.total_orig,
        t.total_new == s.total_new,
    ensures
        t.wf(),
{
    lemma_count_update(s.files, i, t.files[i]);
    assert(s.is_active(i));
    assert forall|j: int| 0 <= j < t.next implies {
        let f = #[trigger] t.files[j];
        ||| f.is_preparing && !f.is_prepared && !f.is_processed && f.next_trial_idx == 0 && f.completed_trials == 0
        ||| f.is_prepared && !f.is_preparing && f.is_processed
        ||| is_running(f) && t.is_active(j)
        ||| is_to_write(f)
    } by {
        let f = s.files[j];
        if s.is_active(j) {
            let k = choose|k: int| 0 <= k < s.active.len() && #[trigger] s.active[k] == j;
            assert(t.active[k] == j);
        }
    }
    assert forall|j: int| t.next <= j < t.files.len() implies {
        let f = #[trigger] t.files[j];
        !f.is_preparing && !f.is_prepared && !f.is_processed && f.next_trial_idx == 0 && f.completed_trials == 0
    } by {
        assert(t.files[j] == s.files[j]);
    }
    assert forall|a: int, b: int|
        0 <= a < t.files.len() && 0 <= b < t.files.len() && (#[trigger] t.files[a]).is_preparing && (
        #[trigger] t.files[b]).is_preparing implies a == b by {
        assert(s.files[a].is_preparing);
        assert(s.files[b].is_preparing);
    }
    assert forall|k: int| 0 <= k < t.active.len() implies 0 <= #[trigger] t.active[k] < t.next && is_running(
        t.files[t.active[k] as int],
    ) by {
        assert(s.active[k] < s.next);
    }
}

/// What is to be done with a prepared file.
pub open spec fn verdict(p: PreparedData) -> Preparation {
    if p.error_msg is Some {
        Preparation::Failed
    } else if p.is_skipped {
        Preparation::Skipped
    } else if p.trials@.len() > 0 {
        Preparation::Trial { trial_idx: 0 }
    } else if p.best_config is Some {
        Preparation::Write
    } else {
        Preparation::Skipped
    }
}

/// The file when it has been prepared.
pub open spec fn with_prepared(f: FileState, p: PreparedData) -> FileState {
    let v = verdict(p);
    FileState {
        total_trials: p.total_trials,
        total_scanlines: p.total_scanlines,
        best_size: p.best_size,
        best_config: p.best_config,
        orig_idat_size: p.orig_idat_size,
        image_data: p.image_data,
        shared_palette: p.shared_palette,
        shared_trns: p.shared_trns,
        width: p.width,
        height: p.height,
        orig_bit_depth: p.orig_bit_depth,
        orig_color_type: p.orig_color_type,
        out_bit_depth: p.out_bit_depth,
        out_color_type: p.out_color_type,
        trials: p.trials,
        next_trial_idx: if v is Trial { 1 } else { f.next_trial_idx },
        is_skipped: p.is_skipped,
        error_msg: p.error_msg,
        is_processed: v is Failed || v is Skipped,
        is_prepared: true,
        is_preparing: false,
        ..f
    }
}

/// The best outcome so far: a smaller size takes the place of a larger one,
/// and a size of 0 is none.
pub open spec fn better(
    best: (usize, Option<TrialConfig>, Option<Vec<u8>>),
    trial: TrialConfig,
    size: usize,
    bytes: Option<Vec<u8>>,
    zi: u8,
) -> (usize, Option<TrialConfig>, Option<Vec<u8>>) {
    if 0 < size < best.0 {
        (size, Some(trial), if zi == 2 { bytes } else { best.2 })
    } else {
        best
    }
}

/// The file when a trial has come back.
pub open spec fn with_outcome(f: FileState, trial_idx: int, size: usize, bytes: Option<Vec<u8>>, zi: u8) -> FileState {
    let best = better((f.best_size, f.best_config, f.best_bytes), f.trials@[trial_idx], size, bytes, zi);
    FileState {
        completed_trials: (f.completed_trials + 1) as usize,
        best_size: best.0,
        best_config: best.1,
        best_bytes: best.2,
        ..f
    }
}

/// The state when file `i` has been prepared.
pub open spec fn after_preparing(s: SchedulerView, i: int, p: PreparedData) -> SchedulerView {
    let f = with_prepared(s.files[i], p);
    match verdict(p) {
        Preparation::Failed => with_done(s, i, f, f.task.orig_size),
        Preparation::Skipped => with_done(s, i, f, f.task.orig_size),
        Preparation::Write => SchedulerView { files: s.files.update(i, f), ..s },
        Preparation::Trial { trial_idx } => SchedulerView {
            files: s.files.update(i, f),
            active: s.active.push(i as usize),
            ..s
        },
    }
}

/// The state when more rows of file `i` have been encoded.
pub open spec fn after_rows(s: SchedulerView, i: int, rows: usize) -> SchedulerView {
    let n = s.files[i].completed_scanlines + rows;
    let f = FileState { completed_scanlines: if n <= usize::MAX { n as usize } else { usize::MAX }, ..s.files[i] };
    SchedulerView { files: s.files.update(i, f), ..s }
}

/// The state when a trial of file `i` has come back.
pub open spec fn after_trial(
    s: SchedulerView,
    i: int,
    trial_idx: int,
    size: usize,
    bytes: Option<Vec<u8>>,
    zi: u8,
) -> SchedulerView {
    SchedulerView { files: s.files.update(i, with_outcome(s.files[i], trial_idx, size, bytes, zi)), ..s }
}

/// The state when file `i` has been written, or stays as it is if `written`
/// is 0.
pub open spec fn after_writing(s: SchedulerView, i: int, written: u64) -> SchedulerView {
    let f = s.files[i];
    with_done(
        s,
        i,
        FileState { is_processed: true, image_data: None, ..f },
        size_after(written, f.task.orig_size),
    )
}

/// A trial of the file is out, and it can come back.
pub open spec fn has_trial_out(f: FileState) -> bool {
    is_running(f) && f.completed_trials < f.next_trial_idx
}

/// All that is left to do for the file is to write it.
pub open spec fn is_writable(f: FileState) -> bool {
    is_to_write(f) || is_running(f) && f.completed_trials == f.total_trials
}

/// The list without number `i`.
pub open spec fn without(s: Seq<usize>, i: usize) -> Seq<usize>
    decreases s.len(),
{
    if s.len() == 0 {
        s
    } else if s.last() == i {
        without(s.drop_last(), i)
    } else {
        without(s.drop_last(), i).push(s.last())
    }
}

proof fn lemma_without(s: Seq<usize>, i: usize)
    ensures
        forall|k: int|
            0 <= k < without(s, i).len() ==> s.contains(#[trigger] without(s, i)[k]) && without(s, i)[k] != i,
        forall|k: int| 0 <= k < s.len() && #[trigger] s[k] != i ==> without(s, i).contains(s[k]),
    decreases s.len(),
{
    if s.len() > 0 {
        let t = s.drop_last();
        let w = without(t, i);
        let r = without(s, i);
        lemma_without(t, i);
        assert forall|k: int| 0 <= k < r.len() implies s.contains(#[trigger] r[k]) && r[k] != i by {
            if k < w.len() {
                assert(t.contains(w[k]));
                let m = choose|m: int| 0 <= m < t.len() && t[m] == w[k];
                assert(s[m] == r[k]);
            } else {
                assert(s[s.len() - 1] == r[k]);
            }
        }
        assert forall|k: int| 0 <= k < s.len() && #[trigger] s[k] != i implies r.contains(s[k]) by {
            if k < t.len() {
                assert(t[k] == s[k]);
                assert(w.contains(t[k]));
                let m = choose|m: int| 0 <= m < w.len() && w[m] == t[k];
                assert(r[m] == s[k]);
            } else {
                assert(r[r.len() - 1] == s[k]);
            }
        }
    }
}

/// The size that a file has in the end: the size that was written, or the
/// size that it had if nothing was written.
pub open spec fn size_after(written: u64, orig_size: u64) -> u64 {
    if written > 0 { written } else { orig_size }
}

pub open spec fn size_change(from: u64, to: u64) -> SizeChange {
    if to < from {
        SizeChange::Saved((from - to) as u64)
    } else if to == from {
        SizeChange::Same
    } else {
        SizeChange::Grown((to - from) as u64)
    }
}

/// The state when file `i` has become `f`, which is done and now has
/// `bytes` bytes.
pub open spec fn with_done(s: SchedulerView, i: int, f: FileState, bytes: u64) -> SchedulerView {
    SchedulerView {
        files: s.files.update(i, f),
        active: without(s.active, i as usize),
        finished: s.finished + 1,
        total_orig: s.total_orig + f.task.orig_size,
        total_new: s.total_new + bytes,
        ..s
    }
}

/// A file that is done leaves the others as they are.
proof fn lemma_wf_done(s: SchedulerView, i: int, f: FileState, bytes: u64)
    requires
        s.wf(),
        0 <= i < s.next,
        s.files.len() <= usize::MAX,
        !s.files[i].is_processed,
        f.is_prepared && !f.is_preparing && f.is_processed,
        f.task == s.files[i].task,
    ensures
        with_done(s, i, f, bytes).wf(),
        s.finished < s.files.len(),
{
    let t = with_done(s, i, f, bytes);
    lemma_count_update(s.files, i, f);
    lemma_count_bound(s.files);
    lemma_count_bound(t.files);
    lemma_without(s.active, i as usize);
    assert(t.total_new <= t.finished * u64::MAX) by (nonlinear_arith)
        requires
            t.total_new == s.total_new + bytes,
            s.total_new <= s.finished * u64::MAX,
            t.finished == s.finished + 1,
            bytes <= u64::MAX,
    ;
    assert forall|j: int| 0 <= j < t.next implies {
        let g = #[trigger] t.files[j];
        ||| g.is_preparing && !g.is_prepared && !g.is_processed && g.next_trial_idx == 0 && g.completed_trials == 0
        ||| g.is_prepared && !g.is_preparing && g.is_processed
        ||| is_running(g) && t.is_active(j)
        ||| is_to_write(g)
    } by {
        if j != i {
            assert(t.files[j] == s.files[j]);
            if s.is_active(j) {
                let k = choose|k: int| 0 <= k < s.active.len() && #[trigger] s.active[k] == j;
                assert(s.active[k] != i as usize);
                assert(t.active.contains(s.active[k]));
                let m = choose|m: int| 0 <= m < t.active.len() && t.active[m] == s.active[k];
                assert(t.active[m] == j);
            }
        }
    }
    assert forall|j: int| t.next <= j < t.files.len() implies {
        let g = #[trigger] t.files[j];
        !g.is_preparing && !g.is_prepared && !g.is_processed && g.next_trial_idx == 0 && g.completed_trials == 0
    } by {
        assert(t.files[j] == s.files[j]);
    }
    assert forall|a: int, b: int|
        0 <= a < t.files.len() && 0 <= b < t.files.len() && (#[trigger] t.files[a]).is_preparing && (
        #[trigger] t.files[b]).is_preparing implies a == b by {
        assert(s.files[a].is_preparing);
        assert(s.files[b].is_preparing);
    }
    assert forall|k: int| 0 <= k < t.active.len() implies 0 <= #[trigger] t.active[k] < t.next && is_running(
        t.files[t.active[k] as int],
    ) by {
        assert(s.active.contains(t.active[k]));
        let m = choose|m: int| 0 <= m < s.active.len() && s.active[m] == t.active[k];
        assert(s.active[m] < s.next);
        assert(t.files[t.active[k] as int] == s.files[s.active[m] as int]);
    }
}

/// A file that was being prepared and now waits for more leaves the others
/// as they are.
proof fn lemma_wf_taken(s: SchedulerView, t: SchedulerView, i: int)
    requires
        s.wf(),
        0 <= i < s.next,
        s.files[i].is_preparing,
        t.files == s.files.update(i, t.files[i]),
        t.files[i].task == s.files[i].task,
        is_running(t.files[i]) && t.active == s.active.push(i as usize) || is_to_write(t.files[i]) && t.active
            == s.active,
        i <= usize::MAX,
        t.next == s.next,
        t.finished == s.finished,
        t.total_orig == s.total_orig,
        t.total_new == s.total_new,
    ensures
        t.wf(),
{
    lemma_count_update(s.files, i, t.files[i]);
    assert forall|j: int| 0 <= j < t.next implies {
        let g = #[trigger] t.files[j];
        ||| g.is_preparing && !g.is_prepared && !g.is_processed && g.next_trial_idx == 0 && g.completed_trials == 0
        ||| g.is_prepared && !g.is_preparing && g.is_processed
        ||| is_running(g) && t.is_active(j)
        ||| is_to_write(g)
    } by {
        if j != i {
            assert(t.files[j] == s.files[j]);
            if s.is_active(j) {
                let k = choose|k: int| 0 <= k < s.active.len() && #[trigger] s.active[k] == j;
                assert(t.active[k] == j);
            }
        } else if is_running(t.files[i]) {
            assert(t.active[s.active.len() as int] == i);
        }
    }
    assert forall|j: int| t.next <= j < t.files.len() implies {
        let g = #[trigger] t.files[j];
        !g.is_preparing && !g.is_prepared && !g.is_processed && g.next_trial_idx == 0 && g.completed_trials == 0
    } by {
        assert(t.files[j] == s.files[j]);
    }
    assert forall|a: int, b: int|
        0 <= a < t.files.len() && 0 <= b < t.files.len() && (#[trigger] t.files[a]).is_preparing && (
        #[trigger] t.files[b]).is_preparing implies a == b by {
        assert(s.files[a].is_preparing);
        assert(s.files[b].is_preparing);
    }
    assert forall|k: int| 0 <= k < t.active.len() implies 0 <= #[trigger] t.active[k] < t.next && is_running(
        t.files[t.active[k] as int],
    ) by {
        if k < s.active.len() {
            assert(s.active[k] < s.next);
            assert(is_running(s.files[s.active[k] as int]));
            assert(s.active[k] != i);
        }
    }
}

/// Taking up a file keeps the state in order.
pub proof fn lemma_wf_beginning(s: SchedulerView)
    requires
        s.wf(),
        next_task(s) == WorkTask::Prepare,
    ensures
        after_beginning(s).wf(),
        s.next < s.files.len(),
{
    let t = after_beginning(s);
    lemma_count_update(s.files, s.next, t.files[s.next]);
    assert forall|j: int| 0 <= j < t.next implies {
        let g = #[trigger] t.files[j];
        ||| g.is_preparing && !g.is_prepared && !g.is_processed && g.next_trial_idx == 0 && g.completed_trials == 0
        ||| g.is_prepared && !g.is_preparing && g.is_processed
        ||| is_running(g) && t.is_active(j)
        ||| is_to_write(g)
    } by {
        if j != s.next {
            assert(t.files[j] == s.files[j]);
            if s.is_active(j) {
                let k = choose|k: int| 0 <= k < s.active.len() && #[trigger] s.active[k] == j;
                assert(t.active[k] == j);
            }
        }
    }
    assert forall|j: int| t.next <= j < t.files.len() implies {
        let g = #[trigger] t.files[j];
        !g.is_preparing && !g.is_prepared && !g.is_processed && g.next_trial_idx == 0 && g.completed_trials == 0
    } by {
        assert(t.files[j] == s.files[j]);
    }
    assert forall|a: int, b: int|
        0 <= a < t.files.len() && 0 <= b < t.files.len() && (#[trigger] t.files[a]).is_preparing && (
        #[trigger] t.files[b]).is_preparing implies a == b by {
        if a != s.next {
            assert(s.files[a].is_preparing);
        }
        if b != s.next {
            assert(s.files[b].is_preparing);
        }
    }
    assert forall|k: int| 0 <= k < t.active.len() implies 0 <= #[trigger] t.active[k] < t.next && is_running(
        t.files[t.active[k] as int],
    ) by {
        assert(s.active[k] < s.next);
    }
}

/// Taking in a prepared file keeps the state in order.
pub proof fn lemma_wf_preparing(s: SchedulerView, i: int, p: PreparedData)
    requires
        s.wf(),
        s.files.len() <= usize::MAX,
        0 <= i < s.next,
        s.files[i].is_preparing,
        p.trials@.len() > 0 ==> p.total_trials == p.trials@.len(),
    ensures
        after_preparing(s, i, p).wf(),
{
    let f = with_prepared(s.files[i], p);
    match verdict(p) {
        Preparation::Failed => lemma_wf_done(s, i, f, f.task.orig_size),
        Preparation::Skipped => lemma_wf_done(s, i, f, f.task.orig_size),
        _ => lemma_wf_taken(s, after_preparing(s, i, p), i),
    }
}

/// Counting rows keeps the state in order.
pub proof fn lemma_wf_rows(s: SchedulerView, i: int, rows: usize)
    requires
        s.wf(),
        0 <= i < s.files.len(),
    ensures
        after_rows(s, i, rows).wf(),
{
    lemma_wf_same(s, after_rows(s, i, rows), i);
}

/// Taking in an outcome keeps the state in order.
pub proof fn lemma_wf_trial(
    s: SchedulerView,
    i: int,
    trial_idx: int,
    size: usize,
    bytes: Option<Vec<u8>>,
    zi: u8,
)
    requires
        s.wf(),
        0 <= i < s.next,
        has_trial_out(s.files[i]),
    ensures
        after_trial(s, i, trial_idx, size, bytes, zi).wf(),
{
    lemma_wf_running(s, after_trial(s, i, trial_idx, size, bytes, zi), i);
}

/// Finishing a file keeps the state in order.
pub proof fn lemma_wf_writing(s: SchedulerView, i: int, written: u64)
    requires
        s.wf(),
        s.files.len() <= usize::MAX,
        0 <= i < s.next,
        is_writable(s.files[i]),
    ensures
        after_writing(s, i, written).wf(),
{
    let f = s.files[i];
    lemma_wf_done(
        s,
        i,
        FileState { is_processed: true, image_data: None, ..f },
        size_after(written, f.task.orig_size),
    );
}

fn list_without(list: &Vec<usize>, i: usize) -> (out: Vec<usize>)
    ensures
        out@ == without(list@, i),
{
    let mut out: Vec<usize> = Vec::new();
    let mut k: usize = 0;
    assert(list@.take(0) =~= Seq::<usize>::empty());
    assert(out@ =~= without(list@.take(0), i));
    while k < list.len()
        invariant
            k <= list@.len(),
            out@ == without(list@.take(k as int), i),
        decreases list@.len() - k,
    {
        assert(list@.take(k + 1).drop_last() =~= list@.take(k as int));
        if list[k] != i {
            out.push(list[k]);
        }
        k = k + 1;
    }
    assert(list@.take(k as int) =~= list@);
    out
}

impl Scheduler {
    /// Takes up the next file. It counts as being prepared from now on.
    pub fn begin_prepare(&mut self) -> (idx: usize)
        requires
            old(self)@.wf(),
            next_task(old(self)@) == WorkTask::Prepare,
        ensures
            final(self)@.wf(),
            idx == old(self)@.next,
            idx < old(self)@.files.len(),
            final(self)@ == after_beginning(old(self)@),
    {
        let len: usize = self.files.len();
        let idx: usize = self.next_file_to_prepare;
        assert(idx < len);
        self.next_file_to_prepare = idx + 1;
        self.files[idx].is_preparing = true;
        proof {
            assert(self.files@ =~= after_beginning(old(self)@).files);
            lemma_wf_beginning(old(self)@);
        }
        idx
    }

    /// Takes in what came of preparing a file, and says what is to be done
    /// with it.
    pub fn prepared(&mut self, idx: usize, prep: PreparedData) -> (v: Preparation)
        requires
            old(self)@.wf(),
            idx < old(self)@.next,
            old(self)@.files[idx as int].is_preparing,
            prep.trials@.len() > 0 ==> prep.total_trials == prep.trials@.len(),
        ensures
            final(self)@.wf(),
            v == verdict(prep),
            final(self)@ == after_preparing(old(self)@, idx as int, prep),
    {
        let v: Preparation = if prep.error_msg.is_some() {
            Preparation::Failed
        } else if prep.is_skipped {
            Preparation::Skipped
        } else if prep.trials.len() > 0 {
            Preparation::Trial { trial_idx: 0 }
        } else if prep.best_config.is_some() {
            Preparation::Write
        } else {
            Preparation::Skipped
        };
        let is_done: bool = match v {
            Preparation::Failed => true,
            Preparation::Skipped => true,
            _ => false,
        };
        let ghost s = old(self)@;
        let ghost f = with_prepared(s.files[idx as int], prep);
        let state = &mut self.files[idx];
        state.is_preparing = false;
        state.is_prepared = true;
        state.total_trials = prep.total_trials;
        state.total_scanlines = prep.total_scanlines;
        state.best_size = prep.best_size;
        state.best_config = prep.best_config;
        state.orig_idat_size = prep.orig_idat_size;
        state.image_data = prep.image_data;
        state.shared_palette = prep.shared_palette;
        state.shared_trns = prep.shared_trns;
        state.width = prep.width;
        state.height = prep.height;
        state.orig_bit_depth = prep.orig_bit_depth;
        state.orig_color_type = prep.orig_color_type;
        state.out_bit_depth = prep.out_bit_depth;
        state.out_color_type = prep.out_color_type;
        state.trials = prep.trials;
        state.is_skipped = prep.is_skipped;
        state.error_msg = prep.error_msg;
        state.is_processed = is_done;
        if let Preparation::Trial { trial_idx } = v {
            state.next_trial_idx = 1;
        }
        let orig_size: u64 = state.task.orig_size;
        assert(self.files@ =~= s.files.update(idx as int, f));
        if is_done {
            self.add_finished(idx, orig_size, orig_size, Ghost(s), Ghost(f));
        } else if let Preparation::Trial { trial_idx } = v {
            self.active_indices.push(idx);
            proof {
                lemma_wf_taken(s, self@, idx as int);
            }
        } else {
            proof {
                lemma_wf_taken(s, self@, idx as int);
            }
        }
        v
    }

    /// Counts a file as done.
    fn add_finished(
        &mut self,
        idx: usize,
        orig_size: u64,
        new_size: u64,
        Ghost(s): Ghost<SchedulerView>,
        Ghost(f): Ghost<FileState>,
    )
        requires
            s.wf(),
            0 <= idx < s.next,
            !s.files[idx as int].is_processed,
            f.is_prepared && !f.is_preparing && f.is_processed,
            f.task == s.files[idx as int].task,
            f.task.orig_size == orig_size,
            old(self)@ == (SchedulerView { files: s.files.update(idx as int, f), ..s }),
        ensures
            final(self)@ == with_done(s, idx as int, f, new_size),
            final(self)@.wf(),
    {
        let len: usize = self.files.len();
        proof {
            lemma_wf_done(s, idx as int, f, new_size);
            lemma_count_bound(s.files);
            assert(s.finished * u64::MAX <= usize::MAX * u64::MAX) by (nonlinear_arith)
                requires
                    0 <= s.finished <= usize::MAX,
            ;
        }
        self.finished_files = self.finished_files + 1;
        self.total_orig_bytes = self.total_orig_bytes + orig_size as u128;
        self.total_new_bytes = self.total_new_bytes + new_size as u128;
        self.active_indices = list_without(&self.active_indices, idx);
    }

    /// Counts rows of a trial that have been encoded.
    pub fn add_scanlines(&mut self, idx: usize, rows: usize)
        requires
            old(self)@.wf(),
            idx < old(self)@.files.len(),
        ensures
            final(self)@.wf(),
            final(self)@ == after_rows(old(self)@, idx as int, rows),
    {
        let ghost s = old(self)@;
        let n: usize = self.files[idx].completed_scanlines.saturating_add(rows);
        self.files[idx].completed_scanlines = n;
        proof {
            assert(self.files@ =~= after_rows(s, idx as int, rows).files);
            lemma_wf_rows(s, idx as int, rows);
        }
    }

    /// Takes in the outcome of a trial. Says whether it was the last one of
    /// the file.
    pub fn trial_done(&mut self, idx: usize, trial_idx: usize, size: usize, bytes: Option<Vec<u8>>, zi: u8) -> (last:
        bool)
        requires
            old(self)@.wf(),
            idx < old(self)@.next,
            has_trial_out(old(self)@.files[idx as int]),
            trial_idx < old(self)@.files[idx as int].trials@.len(),
        ensures
            final(self)@.wf(),
            final(self)@ == after_trial(old(self)@, idx as int, trial_idx as int, size, bytes, zi),
            last == is_writable(final(self)@.files[idx as int]),
    {
        let ghost s = old(self)@;
        let state = &mut self.files[idx];
        state.completed_trials = state.completed_trials + 1;
        if size < state.best_size && size > 0 {
            state.best_size = size;
            state.best_config = Some(state.trials[trial_idx]);
            if zi == 2 {
                state.best_bytes = bytes;
            }
        }
        let last: bool = state.completed_trials == state.total_trials;
        proof {
            assert(self.files@ =~= after_trial(s, idx as int, trial_idx as int, size, bytes, zi).files);
            lemma_wf_trial(s, idx as int, trial_idx as int, size, bytes, zi);
        }
        last
    }

    /// Takes in that a file has been written, or is to stay as it is if
    /// `written` is 0. Gives its size and how that has changed.
    pub fn file_done(&mut self, idx: usize, written: u64) -> (r: (u64, SizeChange))
        requires
            old(self)@.wf(),
            idx < old(self)@.next,
            is_writable(old(self)@.files[idx as int]),
        ensures
            final(self)@.wf(),
            final(self)@ == after_writing(old(self)@, idx as int, written),
            r.0 == size_after(written, old(self)@.files[idx as int].task.orig_size),
            r.1 == size_change(old(self)@.files[idx as int].task.orig_size, r.0),
    {
        let ghost s = old(self)@;
        let state = &mut self.files[idx];
        state.is_processed = true;
        state.image_data = None;
        let orig_size: u64 = state.task.orig_size;
        let size: u64 = if written > 0 { written } else { orig_size };
        let ghost f = FileState { is_processed: true, image_data: None, ..s.files[idx as int] };
        assert(self.files@ =~= s.files.update(idx as int, f));
        self.add_finished(idx, orig_size, size, Ghost(s), Ghost(f));
        let change = if size < orig_size {
            SizeChange::Saved(orig_size - size)
        } else if size == orig_size {
            SizeChange::Same
        } else {
            SizeChange::Grown(size - orig_size)
        };
        (size, change)
    }

    /// A file and its state.
    pub fn file(&self, idx: usize) -> (f: &FileState)
        requires
            idx < self@.files.len(),
        ensures
            *f == self@.files[idx as int],
    {
        &self.files[idx]
    }

    /// The number of files.
    pub fn file_count(&self) -> (n: usize)
        ensures
            n == self@.files.len(),
    {
        self.files.len()
    }

    /// The number of files that are done.
    pub fn finished_files(&self) -> (n: usize)
        ensures
            n == self@.finished,
    {
        self.finished_files
    }

    /// The size of all finished files before and after.
    pub fn total_bytes(&self) -> (r: (u128, u128))
        ensures
            r.0 == self@.total_orig,
            r.1 == self@.total_new,
    {
        (self.total_orig_bytes, self.total_new_bytes)
    }
}

impl Scheduler {
    /// The bytes that were saved on all finished files together, 0 if they
    /// have grown.
    pub fn saved_bytes(&self) -> (n: u128)
        ensures
            n == (if self@.total_new < self@.total_orig { self@.total_orig - self@.total_new } else { 0 }),
    {
        if self.total_new_bytes < self.total_orig_bytes {
            self.total_orig_bytes - self.total_new_bytes
        } else {
            0
        }
    }
}

/// How far the work on a file is: by rows if their number is known, and by
/// trials otherwise.
pub open spec fn progress_of(f: FileState) -> FileProgress {
    if f.is_processed || f.is_skipped {
        FileProgress::Done
    } else if f.total_scanlines > 0 {
        FileProgress::Part {
            done: if f.completed_scanlines < f.total_scanlines { f.completed_scanlines } else { f.total_scanlines },
            total: f.total_scanlines,
        }
    } else if f.total_trials > 0 {
        FileProgress::Part {
            done: if f.completed_trials < f.total_trials { f.completed_trials } else { f.total_trials },
            total: f.total_trials,
        }
    } else {
        FileProgress::Unknown
    }
}

/// How far the work on a file is.
pub fn file_progress(f: &FileState) -> (p: FileProgress)
    ensures
        p == progress_of(*f),
{
    if f.is_processed || f.is_skipped {
        FileProgress::Done
    } else if f.total_scanlines > 0 {
        FileProgress::Part {
            done: if f.completed_scanlines < f.total_scanlines { f.completed_scanlines } else { f.total_scanlines },
            total: f.total_scanlines,
        }
    } else if f.total_trials > 0 {
        FileProgress::Part {
            done: if f.completed_trials < f.total_trials { f.completed_trials } else { f.total_trials },
            total: f.total_trials,
        }
    } else {
        FileProgress::Unknown
    }
}

/// A change that none of the scheduling depends on keeps the state in order.
proof fn lemma_wf_same(s: SchedulerView, t: SchedulerView, i: int)
    requires
        s.wf(),
        0 <= i < s.files.len(),
        t.files == s.files.update(
            i,
            (FileState { completed_scanlines: t.files[i].completed_scanlines, ..s.files[i] }),
        ),
        t.active == s.active,
        t.next == s.next,
        t.finished == s.finished,
        t.total_orig == s.total_orig,
        t.total_new == s.total_new,
    ensures
        t.wf(),
{
    lemma_count_update(s.files, i, t.files[i]);
    assert forall|j: int| 0 <= j < t.next implies {
        let g = #[trigger] t.files[j];
        ||| g.is_preparing && !g.is_prepared && !g.is_processed && g.next_trial_idx == 0 && g.completed_trials == 0
        ||| g.is_prepared && !g.is_preparing && g.is_processed
        ||| is_running(g) && t.is_active(j)
        ||| is_to_write(g)
    } by {
        let f = s.files[j];
        if s.is_active(j) {
            let k = choose|k: int| 0 <= k < s.active.len() && #[trigger] s.active[k] == j;
            assert(t.active[k] == j);
        }
    }
    assert forall|j: int| t.next <= j < t.files.len() implies {
        let g = #[trigger] t.files[j];
        !g.is_preparing && !g.is_prepared && !g.is_processed && g.next_trial_idx == 0 && g.completed_trials == 0
    } by {
        let f = s.files[j];
    }
    assert forall|a: int, b: int|
        0 <= a < t.files.len() && 0 <= b < t.files.len() && (#[trigger] t.files[a]).is_preparing && (
        #[trigger] t.files[b]).is_preparing implies a == b by {
        assert(s.files[a].is_preparing);
        assert(s.files[b].is_preparing);
    }
    assert forall|k: int| 0 <= k < t.active.len() implies 0 <= #[trigger] t.active[k] < t.next && is_running(
        t.files[t.active[k] as int],
    ) by {
        assert(s.active[k] < s.next);
    }
}

/// The original size of all files.
pub open spec fn all_bytes(files: Seq<FileState>) -> int
    decreases files.len(),
{
    if files.len() == 0 {
        0
    } else {
        all_bytes(files.drop_last()) + files.last().task.orig_size
    }
}

proof fn lemma_all_bytes(files: Seq<FileState>)
    requires
        forall|i: int| 0 <= i < files.len() ==> (#[trigger] files[i]).is_processed,
    ensures
        processed_bytes(files) == all_bytes(files),
    decreases files.len(),
{
    if files.len() > 0 {
        let t = files.drop_last();
        assert forall|i: int| 0 <= i < t.len() implies (#[trigger] t[i]).is_processed by {
            assert(files[i].is_processed);
        }
        assert(files[files.len() - 1].is_processed);
        lemma_all_bytes(t);
    }
}

/// Threads are sent home when every file is done, and not before, and then
/// the total holds every file.
pub proof fn law_work_ends_with_the_last_file(s: SchedulerView)
    requires
        s.wf(),
    ensures
        next_task(s) is Terminate <==> (forall|i: int| 0 <= i < s.files.len() ==> (#[trigger] s.files[i]).is_processed),
        next_task(s) is Terminate ==> s.total_orig == all_bytes(s.files),
{
    lemma_count_bound(s.files);
    if next_task(s) is Terminate {
        lemma_all_bytes(s.files);
    }
}

/// The work never comes to a halt: as long as a file is left and no thread
/// holds work, there is a trial to run or a file to prepare.
pub proof fn law_work_goes_on(s: SchedulerView)
    requires
        s.wf(),
        !s.is_busy(),
        exists|i: int| 0 <= i < s.files.len() && !(#[trigger] s.files[i]).is_processed,
    ensures
        next_task(s) is Trial || next_task(s) is Prepare,
{
    lemma_count_bound(s.files);
    lemma_first_open(s.files, s.active);
    let i = choose|i: int| 0 <= i < s.files.len() && !(#[trigger] s.files[i]).is_processed;
    assert(!any_preparing(s.files)) by {
        if any_preparing(s.files) {
            let j = choose|j: int| 0 <= j < s.files.len() && (#[trigger] s.files[j]).is_preparing;
            assert(j < s.next);
        }
    }
    if i < s.next {
        let f = s.files[i];
        assert(is_running(f) && s.is_active(i));
        let k = choose|k: int| 0 <= k < s.active.len() && #[trigger] s.active[k] == i;
        assert(has_trial(s.files[s.active[k] as int]));
    }
}

/// The best of a row of outcomes, taken in one after the other.
pub open spec fn best_of(outcomes: Seq<(TrialConfig, usize)>) -> (usize, Option<TrialConfig>)
    decreases outcomes.len(),
{
    if outcomes.len() == 0 {
        (usize::MAX, None)
    } else {
        let (size, trial) = best_of(outcomes.drop_last());
        let best = better((size, trial, None), outcomes.last().0, outcomes.last().1, None, 1);
        (best.0, best.1)
    }
}

/// An outcome counts if the trial worked.
pub open spec fn counts(outcome: (TrialConfig, usize)) -> bool {
    0 < outcome.1 < usize::MAX
}

/// Whatever order trials come back in, the best is a smallest one among
/// those that worked, and of several smallest ones the first; there is none
/// only if no trial worked.
pub proof fn law_best_is_smallest(outcomes: Seq<(TrialConfig, usize)>)
    ensures
        match best_of(outcomes).1 {
            Some(trial) => {
                &&& exists|i: int|
                    0 <= i < outcomes.len() && counts(#[trigger] outcomes[i]) && outcomes[i] == (
                        trial,
                        best_of(outcomes).0,
                    ) && forall|j: int|
                        0 <= j < i && counts(#[trigger] outcomes[j]) ==> outcomes[j].1 > best_of(outcomes).0
                &&& forall|i: int|
                    0 <= i < outcomes.len() && counts(#[trigger] outcomes[i]) ==> best_of(outcomes).0 <= outcomes[i].1
            },
            None => best_of(outcomes).0 == usize::MAX && forall|i: int|
                0 <= i < outcomes.len() ==> !counts(#[trigger] outcomes[i]),
        },
    decreases outcomes.len(),
{
    if outcomes.len() > 0 {
        let t = outcomes.drop_last();
        let last = outcomes.len() - 1;
        law_best_is_smallest(t);
        assert forall|i: int| 0 <= i < t.len() implies #[trigger] outcomes[i] == t[i] by {}
        let (size, trial) = best_of(t);
        if counts(outcomes[last]) && outcomes[last].1 < size {
            assert(counts(outcomes[last]));
            assert forall|j: int| 0 <= j < last && counts(#[trigger] outcomes[j]) implies outcomes[j].1
                > best_of(outcomes).0 by {
                assert(counts(t[j]));
            }
            assert forall|i: int| 0 <= i < outcomes.len() && counts(#[trigger] outcomes[i]) implies best_of(outcomes).0
                <= outcomes[i].1 by {
                if i < last {
                    assert(counts(t[i]));
                }
            }
        } else {
            assert(best_of(outcomes) == (size, trial));
            if trial is Some {
                let i = choose|i: int|
                    0 <= i < t.len() && counts(#[trigger] t[i]) && t[i] == (trial->0, size) && forall|j: int|
                        0 <= j < i && counts(#[trigger] t[j]) ==> t[j].1 > size;
                assert(counts(outcomes[i]));
                assert forall|j: int| 0 <= j < i && counts(#[trigger] outcomes[j]) implies outcomes[j].1 > size by {
                    assert(counts(t[j]));
                }
                assert forall|k: int| 0 <= k < outcomes.len() && counts(#[trigger] outcomes[k]) implies size
                    <= outcomes[k].1 by {
                    if k < last {
                        assert(counts(t[k]));
                    }
                }
            } else {
                assert forall|i: int| 0 <= i < outcomes.len() implies !counts(#[trigger] outcomes[i]) by {
                    if i < last {
                        assert(!counts(t[i]));
                    }
                }
            }
        }
    }
}

}
