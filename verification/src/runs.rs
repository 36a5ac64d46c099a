//! What holds of a scheduler over all that happens to it: each trial is
//! handed out once, and the best outcome of a file is the best of all that
//! came back.
use crate::models::{FileState, PreparedData, TrialConfig};
use crate::prepare::is_untried;
use crate::scheduler::{
    after_asking, after_beginning, after_preparing, after_rows, after_trial, after_writing, all_fresh, best_of,
    counts, has_trial_out, is_running, is_writable, law_best_is_smallest, lemma_wf_asking, lemma_wf_beginning,
    lemma_wf_preparing, lemma_wf_rows, lemma_wf_start, lemma_wf_trial, lemma_wf_writing, next_task, start, verdict,
    with_outcome, Preparation, SchedulerView, WorkTask,
};
use vstd::prelude::*;
use vstd::set_lib::{lemma_int_range, lemma_subset_equality, set_int_range};

verus! {

/// Something that happens to a scheduler: one call of one of its methods.
pub enum Event {
    /// A thread has asked for work.
    Asked,
    /// A file has been taken up.
    Begun,
    /// A file has been prepared.
    Prepared { idx: usize, prep: PreparedData },
    /// Rows have been encoded.
    Rows { idx: usize, rows: usize },
    /// A trial has come back.
    Tried { idx: usize, trial_idx: usize, size: usize, bytes: Option<Vec<u8>>, zi: u8 },
    /// A file has been written, or left as it is.
    Written { idx: usize, written: u64 },
}

/// The event can happen in this state.
pub open spec fn can_happen(s: SchedulerView, e: Event) -> bool {
    match e {
        Event::Asked => true,
        Event::Begun => next_task(s) == WorkTask::Prepare,
        Event::Prepared { idx, prep } => idx < s.next && s.files[idx as int].is_preparing && is_untried(prep),
        Event::Rows { idx, rows } => idx < s.files.len(),
        Event::Tried { idx, trial_idx, size, bytes, zi } => idx < s.next && has_trial_out(s.files[idx as int])
            && trial_idx < s.files[idx as int].trials@.len(),
        Event::Written { idx, written } => idx < s.next && is_writable(s.files[idx as int]),
    }
}

/// The state behind the event.
pub open spec fn after(s: SchedulerView, e: Event) -> SchedulerView {
    match e {
        Event::Asked => after_asking(s),
        Event::Begun => after_beginning(s),
        Event::Prepared { idx, prep } => after_preparing(s, idx as int, prep),
        Event::Rows { idx, rows } => after_rows(s, idx as int, rows),
        Event::Tried { idx, trial_idx, size, bytes, zi } => after_trial(
            s,
            idx as int,
            trial_idx as int,
            size,
            bytes,
            zi,
        ),
        Event::Written { idx, written } => after_writing(s, idx as int, written),
    }
}

/// The state behind all events, of a scheduler that started with `files`.
pub open spec fn after_all(files: Seq<FileState>, events: Seq<Event>) -> SchedulerView
    decreases events.len(),
{
    if events.len() == 0 {
        start(files)
    } else {
        after(after_all(files, events.drop_last()), events.last())
    }
}

/// The events can happen one after the other, from the start on.
pub open spec fn is_run(files: Seq<FileState>, events: Seq<Event>) -> bool
    decreases events.len(),
{
    if events.len() == 0 {
        all_fresh(files) && files.len() <= usize::MAX
    } else {
        is_run(files, events.drop_last()) && can_happen(after_all(files, events.drop_last()), events.last())
    }
}

/// The file and the number of the trial that an event hands out, if it does.
pub open spec fn given(s: SchedulerView, e: Event) -> Option<(usize, usize)> {
    match e {
        Event::Asked => match next_task(s) {
            WorkTask::Trial { file_idx, trial_idx } => Some((file_idx, trial_idx)),
            _ => None,
        },
        Event::Prepared { idx, prep } => match verdict(prep) {
            Preparation::Trial { trial_idx } => Some((idx, trial_idx)),
            _ => None,
        },
        _ => None,
    }
}

/// The trials of file `i` that were handed out, in order.
pub open spec fn handed_out(files: Seq<FileState>, events: Seq<Event>, i: int) -> Seq<int>
    decreases events.len(),
{
    if events.len() == 0 {
        Seq::empty()
    } else {
        let before = handed_out(files, events.drop_last(), i);
        match given(after_all(files, events.drop_last()), events.last()) {
            Some((file_idx, trial_idx)) => if file_idx == i { before.push(trial_idx as int) } else { before },
            None => before,
        }
    }
}

/// The trials of file `i` that came back, in order, each with its size.
pub open spec fn came_back(events: Seq<Event>, i: int) -> Seq<(int, usize)>
    decreases events.len(),
{
    if events.len() == 0 {
        Seq::empty()
    } else {
        let before = came_back(events.drop_last(), i);
        match events.last() {
            Event::Tried { idx, trial_idx, size, bytes, zi } => if idx == i {
                before.push((trial_idx as int, size))
            } else {
                before
            },
            _ => before,
        }
    }
}

/// The settings and sizes of trials that came back.
pub open spec fn outcomes(back: Seq<(int, usize)>, trials: Seq<TrialConfig>) -> Seq<(TrialConfig, usize)> {
    back.map_values(|b: (int, usize)| (trials[b.0], b.1))
}

/// The numbers of trials that came back.
pub open spec fn numbers(back: Seq<(int, usize)>) -> Seq<int> {
    back.map_values(|b: (int, usize)| b.0)
}

/// The numbers from 0 up to `n`, which is left out.
pub open spec fn count_up(n: int) -> Seq<int> {
    Seq::new(n as nat, |k: int| k)
}

/// Only trials that were handed out come back, and none of them twice.
pub open spec fn back_once(files: Seq<FileState>, events: Seq<Event>) -> bool
    decreases events.len(),
{
    events.len() > 0 ==> {
        let before = events.drop_last();
        &&& back_once(files, before)
        &&& events.last() matches Event::Tried { idx, trial_idx, size, bytes, zi } ==> handed_out(
            files,
            before,
            idx as int,
        ).contains(trial_idx as int) && !numbers(came_back(before, idx as int)).contains(trial_idx as int)
    }
}

/// The state is in order at the end of every run, and no file gets lost.
pub proof fn law_runs_keep_order(files: Seq<FileState>, events: Seq<Event>)
    requires
        is_run(files, events),
    ensures
        after_all(files, events).wf(),
        after_all(files, events).files.len() == files.len(),
        files.len() <= usize::MAX,
    decreases events.len(),
{
    if events.len() == 0 {
        lemma_wf_start(files);
    } else {
        law_runs_keep_order(files, events.drop_last());
        let s = after_all(files, events.drop_last());
        match events.last() {
            Event::Asked => lemma_wf_asking(s),
            Event::Begun => lemma_wf_beginning(s),
            Event::Prepared { idx, prep } => lemma_wf_preparing(s, idx as int, prep),
            Event::Rows { idx, rows } => lemma_wf_rows(s, idx as int, rows),
            Event::Tried { idx, trial_idx, size, bytes, zi } => lemma_wf_trial(
                s,
                idx as int,
                trial_idx as int,
                size,
                bytes,
                zi,
            ),
            Event::Written { idx, written } => lemma_wf_writing(s, idx as int, written),
        }
    }
}

/// What the state of a file says about the trials that were handed out and
/// that came back.
spec fn is_accounted(f: FileState, given: Seq<int>, back: Seq<(int, usize)>) -> bool {
    &&& given == count_up(f.next_trial_idx as int)
    &&& back.len() == f.completed_trials
    &&& f.completed_trials <= f.next_trial_idx
    &&& is_running(f) ==> f.next_trial_idx > 0
    &&& f.next_trial_idx > 0 ==> {
        &&& f.is_prepared
        &&& f.next_trial_idx <= f.trials@.len()
        &&& (f.best_size, f.best_config) == best_of(outcomes(back, f.trials@))
        &&& f.is_processed ==> f.completed_trials == f.trials@.len()
    }
}

/// One more outcome.
proof fn lemma_outcome(back: Seq<(int, usize)>, b: (int, usize), trials: Seq<TrialConfig>)
    ensures
        outcomes(back.push(b), trials).len() == back.len() + 1,
        outcomes(back.push(b), trials).drop_last() == outcomes(back, trials),
        outcomes(back.push(b), trials).last() == (trials[b.0], b.1),
{
    assert(outcomes(back.push(b), trials).drop_last() =~= outcomes(back, trials));
}

proof fn lemma_accounted(files: Seq<FileState>, events: Seq<Event>, i: int)
    requires
        is_run(files, events),
        0 <= i < files.len(),
    ensures
        is_accounted(after_all(files, events).files[i], handed_out(files, events, i), came_back(events, i)),
    decreases events.len(),
{
    if events.len() == 0 {
        assert(files[i].is_fresh());
        assert(handed_out(files, events, i) =~= count_up(0));
    } else {
        let before = events.drop_last();
        let s = after_all(files, before);
        let f = s.files[i];
        let g = after_all(files, events).files[i];
        let back = came_back(before, i);
        law_runs_keep_order(files, before);
        lemma_accounted(files, before, i);
        assert(handed_out(files, before, i).push(f.next_trial_idx as int) =~= count_up(f.next_trial_idx + 1));
        match events.last() {
            Event::Asked => lemma_wf_asking(s),
            Event::Begun => lemma_wf_beginning(s),
            Event::Prepared { idx, prep } => {
                if idx == i {
                    assert(f.next_trial_idx == 0 && f.completed_trials == 0);
                    assert(outcomes(back, g.trials@) =~= Seq::empty());
                }
            },
            Event::Tried { idx, trial_idx, size, bytes, zi } => {
                if idx == i {
                    lemma_outcome(back, (trial_idx as int, size), f.trials@);
                    let all = outcomes(came_back(events, i), f.trials@);
                    assert(g == with_outcome(f, trial_idx as int, size, bytes, zi));
                    assert(best_of(all.drop_last()) == (f.best_size, f.best_config));
                }
            },
            _ => {},
        }
    }
}

/// The trials of a file are handed out in order and each of them once; and
/// if any was, all of them have been by the time the file is done.
pub proof fn law_trials_are_handed_out_once(files: Seq<FileState>, events: Seq<Event>, i: int)
    requires
        is_run(files, events),
        0 <= i < files.len(),
    ensures
        ({
            let f = after_all(files, events).files[i];
            let out = handed_out(files, events, i);
            &&& out == count_up(f.next_trial_idx as int)
            &&& out.no_duplicates()
            &&& out.len() > 0 ==> out.len() <= f.trials@.len()
            &&& out.len() > 0 && f.is_processed ==> out == count_up(f.trials@.len() as int)
        }),
{
    lemma_accounted(files, events, i);
}

/// At any time, the best of a file is the best of the outcomes that were
/// taken in for it.
pub proof fn law_best_of_what_came_back(files: Seq<FileState>, events: Seq<Event>, i: int)
    requires
        is_run(files, events),
        0 <= i < files.len(),
        handed_out(files, events, i).len() > 0,
    ensures
        ({
            let f = after_all(files, events).files[i];
            (f.best_size, f.best_config) == best_of(outcomes(came_back(events, i), f.trials@))
        }),
{
    lemma_accounted(files, events, i);
}

proof fn lemma_back_once(files: Seq<FileState>, events: Seq<Event>, i: int)
    requires
        is_run(files, events),
        back_once(files, events),
        0 <= i < files.len(),
    ensures
        numbers(came_back(events, i)).no_duplicates(),
        forall|k: int|
            0 <= k < came_back(events, i).len() ==> handed_out(files, events, i).contains(
                #[trigger] numbers(came_back(events, i))[k],
            ),
    decreases events.len(),
{
    if events.len() > 0 {
        let before = events.drop_last();
        let out = handed_out(files, before, i);
        let old_numbers = numbers(came_back(before, i));
        let new_numbers = numbers(came_back(events, i));
        lemma_back_once(files, before, i);
        if let Event::Tried { idx, trial_idx, size, bytes, zi } = events.last() {
            if idx == i {
                assert(new_numbers =~= old_numbers.push(trial_idx as int));
            }
        }
        assert forall|k: int| 0 <= k < came_back(events, i).len() implies handed_out(files, events, i).contains(
            #[trigger] new_numbers[k],
        ) by {
            if k < old_numbers.len() {
                assert(new_numbers[k] == old_numbers[k]);
            }
            assert(out.contains(new_numbers[k]));
            let m = choose|m: int| 0 <= m < out.len() && out[m] == new_numbers[k];
            assert(handed_out(files, events, i)[m] == new_numbers[k]);
        }
    }
}

/// When a file whose trials were run is done, each of its trials has come
/// back exactly once, and its best is a smallest of all that worked.
pub proof fn law_done_files_have_all_trials(files: Seq<FileState>, events: Seq<Event>, i: int)
    requires
        is_run(files, events),
        back_once(files, events),
        0 <= i < files.len(),
        handed_out(files, events, i).len() > 0,
        after_all(files, events).files[i].is_processed,
    ensures
        ({
            let f = after_all(files, events).files[i];
            let back = came_back(events, i);
            &&& back.len() == f.trials@.len()
            &&& numbers(back).no_duplicates()
            &&& forall|t: int| 0 <= t < f.trials@.len() ==> #[trigger] numbers(back).contains(t)
            &&& forall|k: int| #![trigger back[k]]
                0 <= k < back.len() && counts((f.trials@[back[k].0], back[k].1)) ==> f.best_size <= back[k].1
            &&& f.best_config matches Some(best) ==> exists|k: int| #![trigger back[k]]
                0 <= k < back.len() && back[k].1 == f.best_size && f.trials@[back[k].0] == best
            &&& f.best_config is None ==> forall|k: int| #![trigger back[k]]
                0 <= k < back.len() ==> !counts((f.trials@[back[k].0], back[k].1))
        }),
{
    let f = after_all(files, events).files[i];
    let back = came_back(events, i);
    let n = f.trials@.len() as int;
    let ns = numbers(back);
    lemma_accounted(files, events, i);
    lemma_back_once(files, events, i);
    ns.unique_seq_to_set();
    lemma_int_range(0, n);
    assert forall|t: int| ns.to_set().contains(t) implies set_int_range(0, n).contains(t) by {
        let k = choose|k: int| 0 <= k < ns.len() && ns[k] == t;
        assert(count_up(n).contains(ns[k]));
    }
    lemma_subset_equality(ns.to_set(), set_int_range(0, n));
    assert forall|t: int| 0 <= t < n implies #[trigger] ns.contains(t) by {
        assert(ns.to_set().contains(t));
    }
    let all = outcomes(back, f.trials@);
    law_best_is_smallest(all);
    assert forall|k: int| #![trigger back[k]]
        0 <= k < back.len() implies all[k] == (f.trials@[back[k].0], back[k].1) by {}
    if f.best_config is Some {
        let k = choose|k: int|
            0 <= k < all.len() && counts(#[trigger] all[k]) && all[k] == (f.best_config->0, f.best_size) && forall|
                j: int,
            |
                0 <= j < k && counts(#[trigger] all[j]) ==> all[j].1 > f.best_size;
        assert(back[k].1 == f.best_size && f.trials@[back[k].0] == f.best_config->0);
    }
}

/// The sizes of all files that are done, as they are afterwards: what was
/// written for a file, or the size that it had where nothing was.
pub open spec fn sizes_afterwards(files: Seq<FileState>, events: Seq<Event>) -> int
    decreases events.len(),
{
    if events.len() == 0 {
        0
    } else {
        sizes_afterwards(files, events.drop_last()) + (match events.last() {
            Event::Written { idx, written } => if written > 0 {
                written as int
            } else {
                files[idx as int].task.orig_size as int
            },
            Event::Prepared { idx, prep } => if prep.error_msg is Some || prep.is_skipped || prep.trials@.len() == 0
                && prep.best_config is None {
                files[idx as int].task.orig_size as int
            } else {
                0
            },
            _ => 0,
        })
    }
}

proof fn lemma_tasks(files: Seq<FileState>, events: Seq<Event>, i: int)
    requires
        is_run(files, events),
        0 <= i < files.len(),
    ensures
        after_all(files, events).files[i].task == files[i].task,
    decreases events.len(),
{
    if events.len() > 0 {
        let before = events.drop_last();
        law_runs_keep_order(files, before);
        lemma_tasks(files, before, i);
        let s = after_all(files, before);
        match events.last() {
            Event::Asked => lemma_wf_asking(s),
            Event::Begun => lemma_wf_beginning(s),
            _ => {},
        }
    }
}

/// The total of the new sizes is right after every run.
pub proof fn law_total_of_new_sizes(files: Seq<FileState>, events: Seq<Event>)
    requires
        is_run(files, events),
    ensures
        after_all(files, events).total_new == sizes_afterwards(files, events),
    decreases events.len(),
{
    if events.len() > 0 {
        let before = events.drop_last();
        law_runs_keep_order(files, before);
        law_total_of_new_sizes(files, before);
        match events.last() {
            Event::Prepared { idx, prep } => lemma_tasks(files, before, idx as int),
            Event::Written { idx, written } => lemma_tasks(files, before, idx as int),
            _ => {},
        }
    }
}

}
