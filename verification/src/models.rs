//! The data model: users with time quotas, tasks with processing
//! parameters and a forward-only status lifecycle, and the configuration
//! records of the service.

use vstd::prelude::*;

verus! {

/// The stage a task is in.
///
/// The lifecycle moves strictly forward: `Queued` to `Processing` to one of
/// `Completed` or `Failed`, with no way back to `Queued` and no way out of
/// a terminal stage.
#[derive(Clone, Copy, Debug, PartialEq, Eq, Structural)]
pub enum TaskStatus {
    Queued,
    Processing,
    Completed,
    Failed,
}

impl TaskStatus {
    /// Whether the stage is terminal.
    pub open spec fn is_terminal(self) -> bool {
        self is Completed || self is Failed
    }

    /// The transitions the lifecycle allows.
    pub open spec fn can_advance_to(self, next: TaskStatus) -> bool {
        match self {
            TaskStatus::Queued => next is Processing,
            TaskStatus::Processing => next is Completed || next is Failed,
            TaskStatus::Completed => false,
            TaskStatus::Failed => false,
        }
    }
}

/// The worker drives a task `Queued` to `Processing` to `Completed` or
/// `Failed`; no transition leads back to `Queued` and none leaves a
/// terminal stage.
pub proof fn lemma_lifecycle_forward_only()
    ensures
        TaskStatus::Queued.can_advance_to(TaskStatus::Processing),
        TaskStatus::Processing.can_advance_to(TaskStatus::Completed),
        TaskStatus::Processing.can_advance_to(TaskStatus::Failed),
        forall|s: TaskStatus| !(#[trigger] TaskStatus::Completed.can_advance_to(s)),
        forall|s: TaskStatus| !(#[trigger] TaskStatus::Failed.can_advance_to(s)),
        forall|s: TaskStatus| !(#[trigger] s.can_advance_to(TaskStatus::Queued)),
{
}

/// The processing parameters accepted with a submission.
///
/// `top_k` and `n_trial` size the requested summary; `revcom_mode` and
/// `min_ham_dist_mode` are accepted and stored but not consulted by the
/// current engine invocation.
#[derive(Clone, Copy, Debug, PartialEq, Eq, Structural)]
pub struct ProcessForm {
    pub n_trial: u32,
    pub top_k: u32,
    pub revcom_mode: bool,
    pub min_ham_dist_mode: bool,
}

impl Default for ProcessForm {
    /// All counts zero, all flags off.
    fn default() -> (r: Self)
        ensures
            r.n_trial == 0,
            r.top_k == 0,
            !r.revcom_mode,
            !r.min_ham_dist_mode,
    {
        ProcessForm { n_trial: 0, top_k: 0, revcom_mode: false, min_ham_dist_mode: false }
    }
}

/// A login request.
#[derive(Debug, Clone)]
pub struct LoginForm {
    pub username: String,
    pub password: String,
}

/// A registration request.
#[derive(Debug, Clone)]
pub struct RegisterForm {
    pub username: String,
    pub password: String,
    pub confirm_password: String,
}

/// A registered user: identity, credential hash, owned task ids, and the
/// time quota in seconds.
#[derive(Debug, Clone)]
pub struct User {
    pub username: String,
    pub password_hash: String,
    pub tasks: Vec<String>,
    pub quota: u64,
    pub used_quota: u64,
}

/// The task ids of `s` with the id `id` left out, order kept.
pub open spec fn task_ids_without(s: Seq<String>, id: Seq<char>) -> Seq<String>
    decreases s.len(),
{
    if s.len() == 0 {
        Seq::empty()
    } else {
        task_ids_without(s.drop_last(), id) + if s.last()@ == id {
            Seq::empty()
        } else {
            seq![s.last()]
        }
    }
}

/// How many of the task ids of `s` equal `id`.
pub open spec fn task_id_occurrences(s: Seq<String>, id: Seq<char>) -> int
    decreases s.len(),
{
    if s.len() == 0 {
        0
    } else {
        task_id_occurrences(s.drop_last(), id) + if s.last()@ == id {
            1int
        } else {
            0int
        }
    }
}

/// Leaving an id out shortens the list by exactly the number of its
/// occurrences, and no id it never held appears.
pub proof fn lemma_task_ids_without_len(s: Seq<String>, id: Seq<char>)
    ensures
        task_ids_without(s, id).len() == s.len() - task_id_occurrences(s, id),
        0 <= task_id_occurrences(s, id) <= s.len(),
    decreases s.len(),
{
    if s.len() > 0 {
        lemma_task_ids_without_len(s.drop_last(), id);
    }
}

/// An id occurs in the shortened list exactly when it occurred before and
/// is not the one left out.
pub proof fn lemma_task_ids_without_contains(s: Seq<String>, id: Seq<char>, t: String)
    ensures
        task_ids_without(s, id).contains(t) <==> (s.contains(t) && t@ != id),
    decreases s.len(),
{
    if s.len() > 0 {
        lemma_task_ids_without_contains(s.drop_last(), id, t);
        if s.contains(t) {
            let i = choose|i: int| 0 <= i < s.len() && s[i] == t;
            if i < s.len() - 1 {
                assert(s.drop_last()[i] == t);
            }
        }
        if s.drop_last().contains(t) {
            let i = choose|i: int| 0 <= i < s.len() - 1 && s.drop_last()[i] == t;
            assert(s[i] == t);
        }
        if s.last() == t {
            assert(s[s.len() - 1] == t);
        }
        if task_ids_without(s, id).contains(t) && s.last()@ != id && !task_ids_without(
            s.drop_last(),
            id,
        ).contains(t) {
            let w = task_ids_without(s.drop_last(), id);
            let i = choose|i: int| 0 <= i < w.len() + 1 && (w + seq![s.last()])[i] == t;
            if i < w.len() {
                assert(w[i] == t);
            } else {
                assert(s.last() == t);
            }
        }
        if task_ids_without(s.drop_last(), id).contains(t) {
            let w = task_ids_without(s.drop_last(), id);
            let i = choose|i: int| 0 <= i < w.len() && w[i] == t;
            if s.last()@ != id {
                assert((w + seq![s.last()])[i] == t);
            }
        }
        if s.last() == t && s.last()@ != id {
            let w = task_ids_without(s.drop_last(), id);
            assert((w + seq![s.last()])[w.len() as int] == t);
        }
    }
}

impl User {
    /// A fresh user: no tasks, nothing of the quota used.
    pub fn new(username: String, password_hash: String, quota: u64) -> (r: User)
        ensures
            r.username == username,
            r.password_hash == password_hash,
            r.tasks@ == Seq::<String>::empty(),
            r.quota == quota,
            r.used_quota == 0,
    {
        User { username, password_hash, tasks: Vec::new(), quota, used_quota: 0 }
    }

    /// Appends a task id to the user's task list.
    pub fn add_task(&mut self, task_id: String)
        ensures
            final(self).tasks@ == old(self).tasks@.push(task_id),
            final(self).username == old(self).username,
            final(self).password_hash == old(self).password_hash,
            final(self).quota == old(self).quota,
            final(self).used_quota == old(self).used_quota,
    {
        self.tasks.push(task_id);
    }

    /// Removes every occurrence of a task id from the user's task list,
    /// keeping the order of the rest.
    pub fn remove_task(&mut self, task_id: &String)
        ensures
            final(self).tasks@ == task_ids_without(old(self).tasks@, task_id@),
            final(self).username == old(self).username,
            final(self).password_hash == old(self).password_hash,
            final(self).quota == old(self).quota,
            final(self).used_quota == old(self).used_quota,
    {
        let n = self.tasks.len();
        let mut kept: Vec<String> = Vec::new();
        let mut i: usize = 0;
        while i < n
            invariant
                0 <= i <= n,
                n == self.tasks@.len(),
                self.tasks@ == old(self).tasks@,
                kept@ == task_ids_without(self.tasks@.subrange(0, i as int), task_id@),
            decreases n - i,
        {
            proof {
                assert(self.tasks@.subrange(0, i + 1).drop_last() =~= self.tasks@.subrange(
                    0,
                    i as int,
                ));
            }
            let t = &self.tasks[i];
            if !strings_equal(t, task_id) {
                let copy = clone_string(t);
                kept.push(copy);
            }
            i = i + 1;
        }
        proof {
            assert(self.tasks@.subrange(0, n as int) =~= self.tasks@);
        }
        self.tasks = kept;
    }
}

/// Whether two strings hold the same characters.
pub fn strings_equal(a: &String, b: &String) -> (r: bool)
    ensures
        r == (a@ == b@),
{
    a.eq(b)
}

/// A copy of a string with the same characters.
pub fn clone_string(s: &String) -> (r: String)
    ensures
        r == *s,
{
    s.clone()
}

/// A submitted processing task: identity, owner, input and result
/// locations, parameters, status, the optional result, and its timestamps
/// in whole seconds.
#[derive(Debug, Clone)]
pub struct TaskInfo {
    pub task_id: String,
    pub user: String,
    pub fasta_path: String,
    pub filename: String,
    pub status: TaskStatus,
    pub params: ProcessForm,
    pub result: Option<Vec<(Vec<u8>, u32)>>,
    pub result_path: String,
    pub submission_time: i64,
    pub completion_time: Option<i64>,
}

impl TaskInfo {
    /// A freshly submitted task: queued, without result or completion time.
    #[allow(clippy::too_many_arguments)]
    pub fn new(
        task_id: String,
        user: String,
        fasta_path: String,
        filename: String,
        params: ProcessForm,
        result_path: String,
        submission_time: i64,
    ) -> (r: TaskInfo)
        ensures
            r.task_id == task_id,
            r.user == user,
            r.fasta_path == fasta_path,
            r.filename == filename,
            r.status is Queued,
            r.params == params,
            r.result is None,
            r.result_path == result_path,
            r.submission_time == submission_time,
            r.completion_time is None,
    {
        TaskInfo {
            task_id,
            user,
            fasta_path,
            filename,
            status: TaskStatus::Queued,
            params,
            result: None,
            result_path,
            submission_time,
            completion_time: None,
        }
    }
}

/// Sorts tasks by submission time, newest first, keeping exactly the same
/// tasks. The order among tasks submitted at the same second is
/// unspecified.
pub fn sort_tasks_by_submission_desc(tasks: &mut Vec<TaskInfo>)
    ensures
        final(tasks)@.len() == old(tasks)@.len(),
        final(tasks)@.to_multiset() == old(tasks)@.to_multiset(),
        forall|i: int, j: int|
            0 <= i <= j < final(tasks)@.len() ==> final(tasks)@[i].submission_time >= final(tasks)@[j].submission_time,
{
    broadcast use vstd::seq_lib::group_to_multiset_ensures;

    let ghost orig = tasks@;
    let mut rest = Vec::new();
    core::mem::swap(tasks, &mut rest);
    let mut out: Vec<TaskInfo> = Vec::new();
    proof {
        assert(out@.to_multiset().add(rest@.to_multiset()) =~= orig.to_multiset());
    }
    while rest.len() > 0
        invariant
            out@.len() + rest@.len() == orig.len(),
            out@.to_multiset().add(rest@.to_multiset()) == orig.to_multiset(),
            forall|i: int, j: int|
                0 <= i <= j < out@.len() ==> out@[i].submission_time >= out@[j].submission_time,
            forall|i: int, j: int|
                0 <= i < out@.len() && 0 <= j < rest@.len() ==> out@[i].submission_time
                    >= rest@[j].submission_time,
        decreases rest@.len(),
    {
        let mut m: usize = 0;
        let mut j: usize = 1;
        while j < rest.len()
            invariant
                0 <= m < j <= rest@.len(),
                forall|l: int|
                    0 <= l < j ==> rest@[l].submission_time <= rest@[m as int].submission_time,
            decreases rest@.len() - j,
        {
            if rest[j].submission_time > rest[m].submission_time {
                m = j;
            }
            j = j + 1;
        }
        let ghost pre_rest = rest@;
        let ghost pre_out = out@;
        let picked = rest.remove(m);
        out.push(picked);
        proof {
            pre_rest.remove_ensures(m as int);
            pre_rest.to_multiset_ensures();
            pre_out.to_multiset_ensures();
            assert(rest@ == pre_rest.remove(m as int));
            assert(pre_rest.remove(m as int).to_multiset() =~= pre_rest.to_multiset().remove(
                picked,
            ));
            assert(out@ == pre_out.push(picked));
            assert(pre_out.push(picked).to_multiset() =~= pre_out.to_multiset().insert(picked));
            assert(pre_rest.to_multiset().count(picked) > 0) by {
                assert(pre_rest.contains(picked));
            }
            assert(out@.to_multiset().add(rest@.to_multiset()) =~= orig.to_multiset());
        }
    }
    *tasks = out;
}

/// Where the HTTP surface listens.
#[derive(Debug, Clone)]
pub struct ServerConfig {
    pub host: String,
    pub port: u16,
}

/// How the task store is reached.
#[derive(Debug, Clone)]
pub struct RedisConfig {
    pub url: String,
    pub sentinel_enabled: bool,
    pub sentinel_url: Option<String>,
}

/// How many workers run and how many tasks may execute at once.
#[derive(Debug, Clone)]
pub struct WorkerConfig {
    pub worker_count: usize,
    pub max_concurrent_tasks: usize,
}

/// Upload limits and directories.
#[derive(Debug, Clone)]
pub struct UploadConfig {
    pub max_file_size: usize,
    pub temp_dir: String,
    pub results_dir: String,
}

/// Per-user limits.
#[derive(Debug, Clone)]
pub struct UserConfig {
    pub default_quota: u64,
    pub max_tasks_per_user: usize,
}

/// The whole service configuration.
#[derive(Debug, Clone)]
pub struct Config {
    pub server: ServerConfig,
    pub redis: RedisConfig,
    pub worker: WorkerConfig,
    pub upload: UploadConfig,
    pub user: UserConfig,
}

} // verus!
