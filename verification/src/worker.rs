//! Worker-pool decisions: quota-derived deadlines, the task lifecycle
//! reconciler, execution-outcome classification, and the admission bound
//! on concurrent executions.
//!
//! The functions here are the decision core of the worker loop: the loop
//! itself performs the outside work — popping from a live store, running
//! the engine under a wall-clock timeout, deleting the input file — and
//! hands the resulting values to these functions.

use vstd::prelude::*;
use crate::errors::WorkerError;
use crate::models::User;
use crate::models::TaskInfo;
use crate::models::TaskStatus;
use crate::models::task_ids_without;
use crate::models::task_id_occurrences;
use crate::models::lemma_task_ids_without_len;
use crate::models::clone_string;
use crate::store::MemoryStore;

verus! {

/// The seconds a user may still spend: the quota minus what is used, never
/// below zero.
pub open spec fn remaining_quota_spec(u: User) -> int {
    if u.used_quota >= u.quota {
        0
    } else {
        u.quota - u.used_quota
    }
}

/// The wall-clock seconds between submission and completion; a completion
/// before the submission counts as zero.
pub open spec fn elapsed_seconds_spec(submission: int, completion: int) -> int {
    if completion >= submission {
        completion - submission
    } else {
        0
    }
}

/// A task brought to its terminal state: status and result set, completion
/// stamped, everything else kept.
pub open spec fn finalized_task(
    t: TaskInfo,
    status: TaskStatus,
    result: Option<Vec<(Vec<u8>, u32)>>,
    now: i64,
) -> TaskInfo {
    TaskInfo { status, result, completion_time: Some(now), ..t }
}

/// A task with only its status changed.
pub open spec fn task_with_status(t: TaskInfo, status: TaskStatus) -> TaskInfo {
    TaskInfo { status, ..t }
}

/// A user charged for a task: the elapsed wall-clock seconds from
/// submission to completion are added to the used quota, saturating at the
/// counter's maximum.
pub open spec fn charged_user(u: User, submission: i64, completion: i64) -> User {
    let used = u.used_quota + elapsed_seconds_spec(submission as int, completion as int);
    User { used_quota: if used > u64::MAX { u64::MAX } else { used as u64 }, ..u }
}

/// The seconds a user may still spend.
pub fn remaining_quota(user: &User) -> (r: u64)
    ensures
        r as int == remaining_quota_spec(*user),
{
    if user.used_quota >= user.quota {
        0
    } else {
        user.quota - user.used_quota
    }
}

/// The wall-clock seconds between submission and completion.
pub fn elapsed_seconds(submission: i64, completion: i64) -> (r: u64)
    ensures
        r as int == elapsed_seconds_spec(submission as int, completion as int),
{
    if completion >= submission {
        let d: i128 = (completion as i128) - (submission as i128);
        d as u64
    } else {
        0
    }
}

/// Looks a user up and derives the deadline for one task execution.
///
/// Fails with `Processing` when the user is not stored, and with
/// `QuotaExceeded` exactly when the stored user has no remaining quota; a
/// returned deadline is always at least one second.
pub fn get_user_quota(store: &MemoryStore, username: &String) -> (r: Result<u64, WorkerError>)
    requires
        store.wf(),
    ensures
        match r {
            Ok(q) => store.users_view().dom().contains(username@) && q as int
                == remaining_quota_spec(store.users_view()[username@]) && q >= 1,
            Err(e) => match e {
                WorkerError::Processing(k) => !store.users_view().dom().contains(username@) && k@
                    == username@,
                WorkerError::QuotaExceeded(k) => store.users_view().dom().contains(username@)
                    && remaining_quota_spec(store.users_view()[username@]) == 0 && k@ == username@,
                _ => false,
            },
        },
{
    let user = match store.get_user(username) {
        None => {
            return Err(WorkerError::Processing(clone_string(username)));
        },
        Some(u) => u,
    };
    let remaining = remaining_quota(user);
    if remaining == 0 {
        return Err(WorkerError::QuotaExceeded(clone_string(username)));
    }
    Ok(remaining)
}

/// A user whose used quota has reached the quota has no seconds left, so
/// dispatch rejects the task with `QuotaExceeded` before the engine runs.
pub proof fn lemma_exhausted_quota_has_no_remaining(u: User)
    requires
        u.used_quota >= u.quota,
    ensures
        remaining_quota_spec(u) == 0,
{
}

/// Loads a task, sets its status, and persists it.
///
/// Fails with `Processing` exactly when the task is not stored; the store
/// is then unchanged.
pub fn update_task_status(store: &mut MemoryStore, task_id: &String, status: TaskStatus) -> (r:
    Result<(), WorkerError>)
    requires
        old(store).wf(),
    ensures
        final(store).wf(),
        final(store).users_view() == old(store).users_view(),
        final(store).queue_view() == old(store).queue_view(),
        match r {
            Ok(()) => old(store).tasks_view().dom().contains(task_id@) && final(store).tasks_view()
                == old(store).tasks_view().insert(
                task_id@,
                task_with_status(old(store).tasks_view()[task_id@], status),
            ),
            Err(e) => !old(store).tasks_view().dom().contains(task_id@) && final(store).tasks_view() == old(store).tasks_view() && match e {
                WorkerError::Processing(k) => k@ == task_id@,
                _ => false,
            },
        },
{
    let mut task = match store.take_task(task_id) {
        None => {
            return Err(WorkerError::Processing(clone_string(task_id)));
        },
        Some(t) => t,
    };
    task.status = status;
    store.save_task(task);
    proof {
        assert(store.tasks_view() =~= old(store).tasks_view().insert(
            task_id@,
            task_with_status(old(store).tasks_view()[task_id@], status),
        ));
    }
    Ok(())
}

/// Classifies how an isolated task execution ended, as the worker observes
/// it: a finished computation hands through its own result, a crash
/// becomes `TaskPanic`, and an expired deadline becomes `Timeout` carrying
/// the deadline that was exceeded.
pub enum ExecutionOutcome {
    /// The computation ran to its end with this result.
    Finished(Result<Vec<(Vec<u8>, u32)>, WorkerError>),
    /// The computation crashed; the payload describes the crash.
    Panicked(String),
    /// The deadline expired before the computation ended.
    TimedOut,
}

/// Turns an execution outcome into the task's result.
pub fn resolve_outcome(outcome: ExecutionOutcome, remaining_quota: u64) -> (r: Result<
    Vec<(Vec<u8>, u32)>,
    WorkerError,
>)
    ensures
        match outcome {
            ExecutionOutcome::Finished(res) => r == res,
            ExecutionOutcome::Panicked(msg) => r == Result::<
                Vec<(Vec<u8>, u32)>,
                WorkerError,
            >::Err(WorkerError::TaskPanic(msg)),
            ExecutionOutcome::TimedOut => r == Result::<Vec<(Vec<u8>, u32)>, WorkerError>::Err(
                WorkerError::Timeout(remaining_quota),
            ),
        },
{
    match outcome {
        ExecutionOutcome::Finished(res) => res,
        ExecutionOutcome::Panicked(msg) => Err(WorkerError::TaskPanic(msg)),
        ExecutionOutcome::TimedOut => Err(WorkerError::Timeout(remaining_quota)),
    }
}

/// Loads a finished task, persists its terminal status, result and
/// completion time, and charges the elapsed wall-clock time — queue wait
/// included — against the owning user's quota.
///
/// Fails with `Processing` when the task, or the user it names, is not
/// stored; the store is then unchanged.
pub fn update_task_result_user_quota(
    store: &mut MemoryStore,
    task_id: &String,
    status: TaskStatus,
    result: Option<Vec<(Vec<u8>, u32)>>,
    now: i64,
) -> (r: Result<(), WorkerError>)
    requires
        old(store).wf(),
        status.is_terminal(),
    ensures
        final(store).wf(),
        final(store).queue_view() == old(store).queue_view(),
        match r {
            Ok(()) => {
                let t0 = old(store).tasks_view()[task_id@];
                &&& old(store).tasks_view().dom().contains(task_id@)
                &&& old(store).users_view().dom().contains(t0.user@)
                &&& final(store).tasks_view() == old(store).tasks_view().insert(
                    task_id@,
                    finalized_task(t0, status, result, now),
                )
                &&& final(store).users_view() == old(store).users_view().insert(
                    t0.user@,
                    charged_user(old(store).users_view()[t0.user@], t0.submission_time, now),
                )
            },
            Err(e) => {
                &&& final(store).tasks_view() == old(store).tasks_view()
                &&& final(store).users_view() == old(store).users_view()
                &&& match e {
                    WorkerError::Processing(k) => (!old(store).tasks_view().dom().contains(task_id@)
                        && k@ == task_id@) || (old(store).tasks_view().dom().contains(task_id@)
                        && !old(store).users_view().dom().contains(
                        old(store).tasks_view()[task_id@].user@,
                    ) && k@ == old(store).tasks_view()[task_id@].user@),
                    _ => false,
                }
            },
        },
{
    let task = match store.take_task(task_id) {
        None => {
            return Err(WorkerError::Processing(clone_string(task_id)));
        },
        Some(t) => t,
    };
    let mut user = match store.take_user(&task.user) {
        None => {
            let owner = clone_string(&task.user);
            store.save_task(task);
            proof {
                assert(store.tasks_view() =~= old(store).tasks_view());
            }
            return Err(WorkerError::Processing(owner));
        },
        Some(u) => u,
    };
    let elapsed = elapsed_seconds(task.submission_time, now);
    user.used_quota = user.used_quota.saturating_add(elapsed);
    proof {
        assert(user == charged_user(
            old(store).users_view()[old(store).tasks_view()[task_id@].user@],
            old(store).tasks_view()[task_id@].submission_time,
            now,
        ));
    }
    store.save_user(user);
    let mut task = task;
    task.status = status;
    task.result = result;
    task.completion_time = Some(now);
    store.save_task(task);
    proof {
        let t0 = old(store).tasks_view()[task_id@];
        assert(store.tasks_view() =~= old(store).tasks_view().insert(
            task_id@,
            finalized_task(t0, status, result, now),
        ));
        assert(store.users_view() =~= old(store).users_view().insert(
            t0.user@,
            charged_user(old(store).users_view()[t0.user@], t0.submission_time, now),
        ));
    }
    Ok(())
}

/// Deletes a task on its owner's behalf: the id leaves the user's task
/// list, and the task record leaves the store, so a later lookup of the id
/// finds nothing.
///
/// Fails with `Processing` exactly when the user is not stored; the store
/// is then unchanged.
pub fn delete_task_for_user(store: &mut MemoryStore, username: &String, task_id: &String) -> (r:
    Result<(), WorkerError>)
    requires
        old(store).wf(),
    ensures
        final(store).wf(),
        final(store).queue_view() == old(store).queue_view(),
        match r {
            Ok(()) => {
                let u0 = old(store).users_view()[username@];
                let u1 = final(store).users_view()[username@];
                &&& old(store).users_view().dom().contains(username@)
                &&& final(store).users_view().dom() == old(store).users_view().dom()
                &&& (forall|k: Seq<char>|
                    old(store).users_view().dom().contains(k) && k != username@ ==> final(store).users_view()[k] == old(store).users_view()[k])
                &&& u1.username == u0.username && u1.password_hash == u0.password_hash && u1.quota
                    == u0.quota && u1.used_quota == u0.used_quota
                &&& u1.tasks@ == task_ids_without(u0.tasks@, task_id@)
                &&& final(store).tasks_view() == old(store).tasks_view().remove(task_id@)
                &&& !final(store).tasks_view().dom().contains(task_id@)
            },
            Err(e) => !old(store).users_view().dom().contains(username@) && final(store).users_view() == old(store).users_view() && final(store).tasks_view() == old(store).tasks_view() && match e {
                WorkerError::Processing(k) => k@ == username@,
                _ => false,
            },
        },
{
    let mut user = match store.take_user(username) {
        None => {
            return Err(WorkerError::Processing(clone_string(username)));
        },
        Some(u) => u,
    };
    user.remove_task(task_id);
    store.save_user(user);
    store.delete_task(task_id);
    proof {
        assert(store.users_view().dom() =~= old(store).users_view().dom());
    }
    Ok(())
}

/// After one removal the id is gone from the task list; removing it again
/// changes nothing; and a single occurrence shortens the list by exactly
/// one entry.
pub proof fn lemma_remove_task_exactly_once(s: Seq<String>, id: Seq<char>)
    ensures
        task_id_occurrences(task_ids_without(s, id), id) == 0,
        task_ids_without(task_ids_without(s, id), id) == task_ids_without(s, id),
        task_id_occurrences(s, id) == 1 ==> task_ids_without(s, id).len() == s.len() - 1,
    decreases s.len(),
{
    lemma_task_ids_without_len(s, id);
    if s.len() > 0 {
        lemma_remove_task_exactly_once(s.drop_last(), id);
        let w = task_ids_without(s.drop_last(), id);
        if s.last()@ == id {
            assert(task_ids_without(s, id) =~= w);
        } else {
            assert(task_ids_without(s, id) == w + seq![s.last()]);
            assert((w + seq![s.last()]).drop_last() =~= w);
            assert(task_ids_without(w + seq![s.last()], id) =~= task_ids_without(w, id) + seq![
                s.last()
            ]);
        }
    }
}

/// A deleted task id stays deleted: after removal the store does not hold
/// it, and removing it a second time changes nothing.
pub proof fn lemma_delete_task_idempotent(m: Map<Seq<char>, TaskInfo>, id: Seq<char>)
    ensures
        !m.remove(id).dom().contains(id),
        m.remove(id).remove(id) == m.remove(id),
{
    assert(m.remove(id).remove(id) =~= m.remove(id));
}

/// The admission bound of the worker pool: a counting semaphore that lets
/// at most `capacity` executions hold a slot at once.
///
/// However the limiter is driven, `active_count() <= capacity()` holds in
/// every state its operations can reach, which is the pool's concurrency
/// bound.
pub struct ConcurrencyLimiter {
    active: usize,
    max_slots: usize,
}

impl ConcurrencyLimiter {
    /// How many executions hold a slot.
    pub closed spec fn active_count(&self) -> int {
        self.active as int
    }

    /// How many slots exist.
    pub closed spec fn capacity(&self) -> int {
        self.max_slots as int
    }

    /// The admission bound.
    pub open spec fn wf(&self) -> bool {
        self.active_count() <= self.capacity()
    }

    /// A limiter with the given number of slots, all free.
    pub fn new(max_slots: usize) -> (r: Self)
        ensures
            r.wf(),
            r.capacity() == max_slots,
            r.active_count() == 0,
    {
        ConcurrencyLimiter { active: 0, max_slots }
    }

    /// Takes a slot when one is free; the bound is never exceeded.
    pub fn try_acquire(&mut self) -> (r: bool)
        requires
            old(self).wf(),
        ensures
            final(self).wf(),
            final(self).capacity() == old(self).capacity(),
            r ==> old(self).active_count() < old(self).capacity() && final(self).active_count()
                == old(self).active_count() + 1,
            !r ==> old(self).active_count() == old(self).capacity() && final(self).active_count()
                == old(self).active_count(),
    {
        if self.active < self.max_slots {
            self.active = self.active + 1;
            true
        } else {
            false
        }
    }

    /// Returns a held slot.
    pub fn release(&mut self)
        requires
            old(self).wf(),
            old(self).active_count() >= 1,
        ensures
            final(self).wf(),
            final(self).capacity() == old(self).capacity(),
            final(self).active_count() == old(self).active_count() - 1,
    {
        self.active = self.active - 1;
    }

    /// How many executions hold a slot, for observation.
    pub fn active(&self) -> (r: usize)
        ensures
            r as int == self.active_count(),
    {
        self.active
    }

    /// How many slots exist, for observation.
    pub fn max_slots(&self) -> (r: usize)
        ensures
            r as int == self.capacity(),
    {
        self.max_slots
    }
}

/// The concurrency bound itself: no reachable limiter state admits more
/// executions than its capacity.
pub proof fn lemma_concurrency_bounded(c: ConcurrencyLimiter)
    requires
        c.wf(),
    ensures
        c.active_count() <= c.capacity(),
{
}

} // verus!
