//! An in-memory task store.
//!
//! The worker pool treats the store as an abstract key-value service for
//! user and task records plus a single work queue. This store is the
//! verified reference implementation of that interface; its views are the
//! mapping from username to user record, the mapping from task id to task
//! record, and the queued tasks in order.

use vstd::prelude::*;
use crate::models::User;
use crate::models::TaskInfo;
use crate::models::strings_equal;

verus! {

/// No username occurs twice.
pub open spec fn user_keys_distinct(s: Seq<User>) -> bool {
    forall|i: int, j: int| 0 <= i < j < s.len() ==> (#[trigger] s[i]).username@ != (
    #[trigger] s[j]).username@
}

/// The mapping from username to record that a user list denotes.
pub open spec fn users_map_of(s: Seq<User>) -> Map<Seq<char>, User>
    decreases s.len(),
{
    if s.len() == 0 {
        Map::empty()
    } else {
        users_map_of(s.drop_last()).insert(s.last().username@, s.last())
    }
}

/// No task id occurs twice.
pub open spec fn task_keys_distinct(s: Seq<TaskInfo>) -> bool {
    forall|i: int, j: int| 0 <= i < j < s.len() ==> (#[trigger] s[i]).task_id@ != (
    #[trigger] s[j]).task_id@
}

/// The mapping from task id to record that a task list denotes.
pub open spec fn tasks_map_of(s: Seq<TaskInfo>) -> Map<Seq<char>, TaskInfo>
    decreases s.len(),
{
    if s.len() == 0 {
        Map::empty()
    } else {
        tasks_map_of(s.drop_last()).insert(s.last().task_id@, s.last())
    }
}

proof fn lemma_users_map_contains(s: Seq<User>, name: Seq<char>)
    ensures
        users_map_of(s).dom().contains(name) <==> exists|i: int|
            0 <= i < s.len() && (#[trigger] s[i]).username@ == name,
    decreases s.len(),
{
    if s.len() > 0 {
        lemma_users_map_contains(s.drop_last(), name);
        if s.last().username@ == name {
            assert(s[s.len() - 1].username@ == name);
        } else if users_map_of(s).dom().contains(name) {
            let i = choose|i: int| 0 <= i < s.len() - 1 && s.drop_last()[i].username@ == name;
            assert(s[i].username@ == name);
        } else {
            assert forall|i: int| 0 <= i < s.len() implies (#[trigger] s[i]).username@ != name by {
                if i < s.len() - 1 {
                    assert(s.drop_last()[i] == s[i]);
                }
            }
        }
    }
}

proof fn lemma_users_map_index(s: Seq<User>, i: int)
    requires
        user_keys_distinct(s),
        0 <= i < s.len(),
    ensures
        users_map_of(s).dom().contains(s[i].username@),
        users_map_of(s)[s[i].username@] == s[i],
    decreases s.len(),
{
    if i == s.len() - 1 {
    } else {
        assert(user_keys_distinct(s.drop_last())) by {
            assert(forall|x: int, y: int|
                0 <= x < y < s.len() - 1 ==> s.drop_last()[x] == s[x] && s.drop_last()[y] == s[y]);
        }
        assert(s.drop_last()[i] == s[i]);
        lemma_users_map_index(s.drop_last(), i);
        assert(s.last().username@ != s[i].username@);
    }
}

proof fn lemma_tasks_map_contains(s: Seq<TaskInfo>, id: Seq<char>)
    ensures
        tasks_map_of(s).dom().contains(id) <==> exists|i: int|
            0 <= i < s.len() && (#[trigger] s[i]).task_id@ == id,
    decreases s.len(),
{
    if s.len() > 0 {
        lemma_tasks_map_contains(s.drop_last(), id);
        if s.last().task_id@ == id {
            assert(s[s.len() - 1].task_id@ == id);
        } else if tasks_map_of(s).dom().contains(id) {
            let i = choose|i: int| 0 <= i < s.len() - 1 && s.drop_last()[i].task_id@ == id;
            assert(s[i].task_id@ == id);
        } else {
            assert forall|i: int| 0 <= i < s.len() implies (#[trigger] s[i]).task_id@ != id by {
                if i < s.len() - 1 {
                    assert(s.drop_last()[i] == s[i]);
                }
            }
        }
    }
}

proof fn lemma_tasks_map_index(s: Seq<TaskInfo>, i: int)
    requires
        task_keys_distinct(s),
        0 <= i < s.len(),
    ensures
        tasks_map_of(s).dom().contains(s[i].task_id@),
        tasks_map_of(s)[s[i].task_id@] == s[i],
    decreases s.len(),
{
    if i == s.len() - 1 {
    } else {
        assert(task_keys_distinct(s.drop_last())) by {
            assert(forall|x: int, y: int|
                0 <= x < y < s.len() - 1 ==> s.drop_last()[x] == s[x] && s.drop_last()[y] == s[y]);
        }
        assert(s.drop_last()[i] == s[i]);
        lemma_tasks_map_index(s.drop_last(), i);
        assert(s.last().task_id@ != s[i].task_id@);
    }
}

proof fn lemma_users_map_update(s: Seq<User>, i: int, u: User)
    requires
        user_keys_distinct(s),
        0 <= i < s.len(),
        u.username@ == s[i].username@,
    ensures
        users_map_of(s.update(i, u)) == users_map_of(s).insert(u.username@, u),
    decreases s.len(),
{
    let t = s.update(i, u);
    if i == s.len() - 1 {
        assert(t.drop_last() =~= s.drop_last());
        assert(t.last() == u);
        assert(users_map_of(t) =~= users_map_of(s).insert(u.username@, u));
    } else {
        assert(user_keys_distinct(s.drop_last())) by {
            assert(forall|x: int, y: int|
                0 <= x < y < s.len() - 1 ==> s.drop_last()[x] == s[x] && s.drop_last()[y] == s[y]);
        }
        assert(t.drop_last() =~= s.drop_last().update(i, u));
        assert(s.drop_last()[i] == s[i]);
        lemma_users_map_update(s.drop_last(), i, u);
        assert(t.last() == s.last());
        assert(s.last().username@ != s[i].username@);
        assert(users_map_of(t) =~= users_map_of(s).insert(u.username@, u));
    }
}

proof fn lemma_tasks_map_update(s: Seq<TaskInfo>, i: int, t0: TaskInfo)
    requires
        task_keys_distinct(s),
        0 <= i < s.len(),
        t0.task_id@ == s[i].task_id@,
    ensures
        tasks_map_of(s.update(i, t0)) == tasks_map_of(s).insert(t0.task_id@, t0),
    decreases s.len(),
{
    let t = s.update(i, t0);
    if i == s.len() - 1 {
        assert(t.drop_last() =~= s.drop_last());
        assert(t.last() == t0);
        assert(tasks_map_of(t) =~= tasks_map_of(s).insert(t0.task_id@, t0));
    } else {
        assert(task_keys_distinct(s.drop_last())) by {
            assert(forall|x: int, y: int|
                0 <= x < y < s.len() - 1 ==> s.drop_last()[x] == s[x] && s.drop_last()[y] == s[y]);
        }
        assert(t.drop_last() =~= s.drop_last().update(i, t0));
        assert(s.drop_last()[i] == s[i]);
        lemma_tasks_map_update(s.drop_last(), i, t0);
        assert(t.last() == s.last());
        assert(s.last().task_id@ != s[i].task_id@);
        assert(tasks_map_of(t) =~= tasks_map_of(s).insert(t0.task_id@, t0));
    }
}

proof fn lemma_tasks_map_remove(s: Seq<TaskInfo>, i: int)
    requires
        task_keys_distinct(s),
        0 <= i < s.len(),
    ensures
        tasks_map_of(s.remove(i)) == tasks_map_of(s).remove(s[i].task_id@),
        task_keys_distinct(s.remove(i)),
    decreases s.len(),
{
    let t = s.remove(i);
    s.remove_ensures(i);
    assert forall|x: int, y: int|
        0 <= x < y < t.len() implies (#[trigger] t[x]).task_id@ != (#[trigger] t[y]).task_id@ by {
        if x < i && y < i {
            assert(t[x] == s[x] && t[y] == s[y]);
        } else if x < i {
            assert(t[x] == s[x] && t[y] == s[y + 1]);
        } else {
            assert(t[x] == s[x + 1] && t[y] == s[y + 1]);
        }
    }
    if i == s.len() - 1 {
        assert(t =~= s.drop_last());
        lemma_tasks_map_contains(s.drop_last(), s[i].task_id@);
        assert forall|x: int|
            0 <= x < s.len() - 1 implies (#[trigger] s.drop_last()[x]).task_id@
            != s[i].task_id@ by {
            assert(s.drop_last()[x] == s[x]);
        }
        assert(!tasks_map_of(s.drop_last()).dom().contains(s[i].task_id@));
        assert(tasks_map_of(t) =~= tasks_map_of(s).remove(s[i].task_id@));
    } else {
        assert(task_keys_distinct(s.drop_last())) by {
            assert(forall|x: int, y: int|
                0 <= x < y < s.len() - 1 ==> s.drop_last()[x] == s[x] && s.drop_last()[y] == s[y]);
        }
        assert(t.drop_last() =~= s.drop_last().remove(i));
        assert(s.drop_last()[i] == s[i]);
        lemma_tasks_map_remove(s.drop_last(), i);
        assert(t.last() == s.last());
        assert(s.last().task_id@ != s[i].task_id@);
        assert(tasks_map_of(t) =~= tasks_map_of(s).remove(s[i].task_id@));
    }
}

/// The in-memory store: user records, task records, and the work queue.
pub struct MemoryStore {
    users: Vec<User>,
    tasks: Vec<TaskInfo>,
    queue: Vec<TaskInfo>,
}

impl MemoryStore {
    /// The mapping from username to user record.
    pub closed spec fn users_view(&self) -> Map<Seq<char>, User> {
        users_map_of(self.users@)
    }

    /// The mapping from task id to task record.
    pub closed spec fn tasks_view(&self) -> Map<Seq<char>, TaskInfo> {
        tasks_map_of(self.tasks@)
    }

    /// The queued tasks, oldest first.
    pub closed spec fn queue_view(&self) -> Seq<TaskInfo> {
        self.queue@
    }

    /// Well-formed: one record per username and per task id.
    pub closed spec fn wf(&self) -> bool {
        user_keys_distinct(self.users@) && task_keys_distinct(self.tasks@)
    }

    /// An empty store.
    pub fn new() -> (r: Self)
        ensures
            r.wf(),
            r.users_view() == Map::<Seq<char>, User>::empty(),
            r.tasks_view() == Map::<Seq<char>, TaskInfo>::empty(),
            r.queue_view() == Seq::<TaskInfo>::empty(),
    {
        MemoryStore { users: Vec::new(), tasks: Vec::new(), queue: Vec::new() }
    }

    /// The record stored for a username, if any.
    pub fn get_user(&self, username: &String) -> (r: Option<&User>)
        requires
            self.wf(),
        ensures
            match r {
                Some(u) => self.users_view().dom().contains(username@) && *u == self.users_view()[
                    username@] && u.username@ == username@,
                None => !self.users_view().dom().contains(username@),
            },
    {
        let n = self.users.len();
        let mut i: usize = 0;
        while i < n
            invariant
                0 <= i <= n,
                n == self.users@.len(),
                self.wf(),
                forall|j: int| 0 <= j < i ==> (#[trigger] self.users@[j]).username@ != username@,
            decreases n - i,
        {
            if strings_equal(&self.users[i].username, username) {
                proof {
                    lemma_users_map_index(self.users@, i as int);
                }
                return Some(&self.users[i]);
            }
            i = i + 1;
        }
        proof {
            lemma_users_map_contains(self.users@, username@);
        }
        None
    }

    /// Removes and returns the record stored for a username.
    pub fn take_user(&mut self, username: &String) -> (r: Option<User>)
        requires
            old(self).wf(),
        ensures
            final(self).wf(),
            final(self).tasks_view() == old(self).tasks_view(),
            final(self).queue_view() == old(self).queue_view(),
            match r {
                Some(u) => old(self).users_view().dom().contains(username@) && u == old(
                    self,
                ).users_view()[username@] && u.username@ == username@ && final(self).users_view()
                    == old(self).users_view().remove(username@),
                None => !old(self).users_view().dom().contains(username@) && final(self).users_view()
                    == old(self).users_view(),
            },
    {
        let n = self.users.len();
        let mut i: usize = 0;
        while i < n
            invariant
                0 <= i <= n,
                n == self.users@.len(),
                self.wf(),
                self.users@ == old(self).users@,
                self.tasks@ == old(self).tasks@,
                self.queue@ == old(self).queue@,
                forall|j: int| 0 <= j < i ==> (#[trigger] self.users@[j]).username@ != username@,
            decreases n - i,
        {
            if strings_equal(&self.users[i].username, username) {
                proof {
                    lemma_users_map_index(self.users@, i as int);
                    lemma_users_map_remove(self.users@, i as int);
                }
                let u = self.users.remove(i);
                return Some(u);
            }
            i = i + 1;
        }
        proof {
            lemma_users_map_contains(self.users@, username@);
        }
        None
    }

    /// Stores a user record under its username, replacing any old record.
    pub fn save_user(&mut self, user: User)
        requires
            old(self).wf(),
        ensures
            final(self).wf(),
            final(self).users_view() == old(self).users_view().insert(user.username@, user),
            final(self).tasks_view() == old(self).tasks_view(),
            final(self).queue_view() == old(self).queue_view(),
    {
        let ghost gu = user;
        let n = self.users.len();
        let mut i: usize = 0;
        let mut slot: Option<usize> = None;
        while i < n
            invariant
                0 <= i <= n,
                n == self.users@.len(),
                self.wf(),
                self.users@ == old(self).users@,
                self.tasks@ == old(self).tasks@,
                self.queue@ == old(self).queue@,
                gu == user,
                match slot {
                    Some(m) => m < i && self.users@[m as int].username@ == gu.username@,
                    None => forall|j: int|
                        0 <= j < i ==> (#[trigger] self.users@[j]).username@ != gu.username@,
                },
            decreases n - i,
        {
            if slot.is_none() && strings_equal(&self.users[i].username, &user.username) {
                slot = Some(i);
            }
            i = i + 1;
        }
        match slot {
            Some(m) => {
                proof {
                    lemma_users_map_update(self.users@, m as int, gu);
                }
                self.users[m] = user;
                proof {
                    assert forall|x: int, y: int|
                        0 <= x < y < self.users@.len() implies (
                        #[trigger] self.users@[x]).username@ != (
                        #[trigger] self.users@[y]).username@ by {
                        assert(old(self).users@[x].username@ != old(self).users@[y].username@);
                    }
                }
            },
            None => {
                proof {
                    lemma_users_map_contains(self.users@, gu.username@);
                }
                self.users.push(user);
                proof {
                    assert(self.users@.drop_last() =~= old(self).users@);
                    assert forall|x: int, y: int|
                        0 <= x < y < self.users@.len() implies (
                        #[trigger] self.users@[x]).username@ != (
                        #[trigger] self.users@[y]).username@ by {
                        if y < self.users@.len() - 1 {
                            assert(old(self).users@[x].username@ != old(self).users@[y].username@);
                        } else {
                            assert(self.users@[x] == old(self).users@[x]);
                        }
                    }
                }
            },
        }
    }

    /// The record stored for a task id, if any.
    pub fn get_task(&self, task_id: &String) -> (r: Option<&TaskInfo>)
        requires
            self.wf(),
        ensures
            match r {
                Some(t) => self.tasks_view().dom().contains(task_id@) && *t == self.tasks_view()[
                    task_id@] && t.task_id@ == task_id@,
                None => !self.tasks_view().dom().contains(task_id@),
            },
    {
        let n = self.tasks.len();
        let mut i: usize = 0;
        while i < n
            invariant
                0 <= i <= n,
                n == self.tasks@.len(),
                self.wf(),
                forall|j: int| 0 <= j < i ==> (#[trigger] self.tasks@[j]).task_id@ != task_id@,
            decreases n - i,
        {
            if strings_equal(&self.tasks[i].task_id, task_id) {
                proof {
                    lemma_tasks_map_index(self.tasks@, i as int);
                }
                return Some(&self.tasks[i]);
            }
            i = i + 1;
        }
        proof {
            lemma_tasks_map_contains(self.tasks@, task_id@);
        }
        None
    }

    /// Removes and returns the record stored for a task id.
    pub fn take_task(&mut self, task_id: &String) -> (r: Option<TaskInfo>)
        requires
            old(self).wf(),
        ensures
            final(self).wf(),
            final(self).users_view() == old(self).users_view(),
            final(self).queue_view() == old(self).queue_view(),
            match r {
                Some(t) => old(self).tasks_view().dom().contains(task_id@) && t == old(
                    self,
                ).tasks_view()[task_id@] && t.task_id@ == task_id@ && final(self).tasks_view()
                    == old(self).tasks_view().remove(task_id@),
                None => !old(self).tasks_view().dom().contains(task_id@) && final(self).tasks_view()
                    == old(self).tasks_view(),
            },
    {
        let n = self.tasks.len();
        let mut i: usize = 0;
        while i < n
            invariant
                0 <= i <= n,
                n == self.tasks@.len(),
                self.wf(),
                self.users@ == old(self).users@,
                self.tasks@ == old(self).tasks@,
                self.queue@ == old(self).queue@,
                forall|j: int| 0 <= j < i ==> (#[trigger] self.tasks@[j]).task_id@ != task_id@,
            decreases n - i,
        {
            if strings_equal(&self.tasks[i].task_id, task_id) {
                proof {
                    lemma_tasks_map_index(self.tasks@, i as int);
                    lemma_tasks_map_remove(self.tasks@, i as int);
                }
                let t = self.tasks.remove(i);
                return Some(t);
            }
            i = i + 1;
        }
        proof {
            lemma_tasks_map_contains(self.tasks@, task_id@);
        }
        None
    }

    /// Stores a task record under its id, replacing any old record.
    pub fn save_task(&mut self, task: TaskInfo)
        requires
            old(self).wf(),
        ensures
            final(self).wf(),
            final(self).tasks_view() == old(self).tasks_view().insert(task.task_id@, task),
            final(self).users_view() == old(self).users_view(),
            final(self).queue_view() == old(self).queue_view(),
    {
        let ghost gt = task;
        let n = self.tasks.len();
        let mut i: usize = 0;
        let mut slot: Option<usize> = None;
        while i < n
            invariant
                0 <= i <= n,
                n == self.tasks@.len(),
                self.wf(),
                self.users@ == old(self).users@,
                self.tasks@ == old(self).tasks@,
                self.queue@ == old(self).queue@,
                gt == task,
                match slot {
                    Some(m) => m < i && self.tasks@[m as int].task_id@ == gt.task_id@,
                    None => forall|j: int|
                        0 <= j < i ==> (#[trigger] self.tasks@[j]).task_id@ != gt.task_id@,
                },
            decreases n - i,
        {
            if slot.is_none() && strings_equal(&self.tasks[i].task_id, &task.task_id) {
                slot = Some(i);
            }
            i = i + 1;
        }
        match slot {
            Some(m) => {
                proof {
                    lemma_tasks_map_update(self.tasks@, m as int, gt);
                }
                self.tasks[m] = task;
                proof {
                    assert forall|x: int, y: int|
                        0 <= x < y < self.tasks@.len() implies (#[trigger] self.tasks@[x]).task_id@
                        != (#[trigger] self.tasks@[y]).task_id@ by {
                        assert(old(self).tasks@[x].task_id@ != old(self).tasks@[y].task_id@);
                    }
                }
            },
            None => {
                proof {
                    lemma_tasks_map_contains(self.tasks@, gt.task_id@);
                }
                self.tasks.push(task);
                proof {
                    assert(self.tasks@.drop_last() =~= old(self).tasks@);
                    assert forall|x: int, y: int|
                        0 <= x < y < self.tasks@.len() implies (#[trigger] self.tasks@[x]).task_id@
                        != (#[trigger] self.tasks@[y]).task_id@ by {
                        if y < self.tasks@.len() - 1 {
                            assert(old(self).tasks@[x].task_id@ != old(self).tasks@[y].task_id@);
                        } else {
                            assert(self.tasks@[x] == old(self).tasks@[x]);
                        }
                    }
                }
            },
        }
    }

    /// Deletes the record stored for a task id, if any.
    pub fn delete_task(&mut self, task_id: &String)
        requires
            old(self).wf(),
        ensures
            final(self).wf(),
            final(self).tasks_view() == old(self).tasks_view().remove(task_id@),
            final(self).users_view() == old(self).users_view(),
            final(self).queue_view() == old(self).queue_view(),
    {
        let taken = self.take_task(task_id);
        proof {
            if taken is None {
                assert(final(self).tasks_view() =~= old(self).tasks_view().remove(task_id@));
            }
        }
    }

    /// Appends a task to the work queue.
    pub fn enqueue(&mut self, task: TaskInfo)
        requires
            old(self).wf(),
        ensures
            final(self).wf(),
            final(self).queue_view() == old(self).queue_view().push(task),
            final(self).users_view() == old(self).users_view(),
            final(self).tasks_view() == old(self).tasks_view(),
    {
        self.queue.push(task);
    }

    /// Removes and returns the oldest queued task; nothing when the queue
    /// is empty.
    pub fn dequeue_one(&mut self) -> (r: Option<TaskInfo>)
        requires
            old(self).wf(),
        ensures
            final(self).wf(),
            final(self).users_view() == old(self).users_view(),
            final(self).tasks_view() == old(self).tasks_view(),
            match r {
                Some(t) => old(self).queue_view().len() > 0 && t == old(self).queue_view()[0]
                    && final(self).queue_view() == old(self).queue_view().subrange(
                    1,
                    old(self).queue_view().len() as int,
                ),
                None => old(self).queue_view().len() == 0 && final(self).queue_view() == old(
                    self,
                ).queue_view(),
            },
    {
        if self.queue.len() == 0 {
            return None;
        }
        let t = self.queue.remove(0);
        proof {
            assert(self.queue@ =~= old(self).queue@.subrange(1, old(self).queue@.len() as int));
        }
        Some(t)
    }
}

proof fn lemma_users_map_remove(s: Seq<User>, i: int)
    requires
        user_keys_distinct(s),
        0 <= i < s.len(),
    ensures
        users_map_of(s.remove(i)) == users_map_of(s).remove(s[i].username@),
        user_keys_distinct(s.remove(i)),
    decreases s.len(),
{
    let t = s.remove(i);
    s.remove_ensures(i);
    assert forall|x: int, y: int|
        0 <= x < y < t.len() implies (#[trigger] t[x]).username@ != (#[trigger] t[y]).username@ by {
        if x < i && y < i {
            assert(t[x] == s[x] && t[y] == s[y]);
        } else if x < i {
            assert(t[x] == s[x] && t[y] == s[y + 1]);
        } else {
            assert(t[x] == s[x + 1] && t[y] == s[y + 1]);
        }
    }
    if i == s.len() - 1 {
        assert(t =~= s.drop_last());
        lemma_users_map_contains(s.drop_last(), s[i].username@);
        assert forall|x: int|
            0 <= x < s.len() - 1 implies (#[trigger] s.drop_last()[x]).username@
            != s[i].username@ by {
            assert(s.drop_last()[x] == s[x]);
        }
        assert(!users_map_of(s.drop_last()).dom().contains(s[i].username@));
        assert(users_map_of(t) =~= users_map_of(s).remove(s[i].username@));
    } else {
        assert(user_keys_distinct(s.drop_last())) by {
            assert(forall|x: int, y: int|
                0 <= x < y < s.len() - 1 ==> s.drop_last()[x] == s[x] && s.drop_last()[y] == s[y]);
        }
        assert(t.drop_last() =~= s.drop_last().remove(i));
        assert(s.drop_last()[i] == s[i]);
        lemma_users_map_remove(s.drop_last(), i);
        assert(t.last() == s.last());
        assert(s.last().username@ != s[i].username@);
        assert(users_map_of(t) =~= users_map_of(s).remove(s[i].username@));
    }
}

} // verus!
