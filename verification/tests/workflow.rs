use kmap::auth::check_login;
use kmap::auth::register_user;
use kmap::auth::AuthError;
use kmap::errors::WorkerError;
use kmap::models::ProcessForm;
use kmap::models::TaskInfo;
use kmap::models::TaskStatus;
use kmap::models::User;
use kmap::models::sort_tasks_by_submission_desc;
use kmap::store::MemoryStore;
use kmap::worker::elapsed_seconds;
use kmap::worker::get_user_quota;
use kmap::worker::remaining_quota;
use kmap::worker::resolve_outcome;
use kmap::worker::update_task_result_user_quota;
use kmap::worker::update_task_status;
use kmap::worker::delete_task_for_user;
use kmap::worker::ConcurrencyLimiter;
use kmap::worker::ExecutionOutcome;

fn sample_user(name: &str, quota: u64, used: u64) -> User {
    User {
        username: name.to_string(),
        password_hash: String::new(),
        tasks: Vec::new(),
        quota,
        used_quota: used,
    }
}

fn sample_task(id: &str, owner: &str, submitted: i64) -> TaskInfo {
    TaskInfo::new(
        id.to_string(),
        owner.to_string(),
        format!("temp/{}/{}.fa", owner, id),
        format!("{}.fa", id),
        ProcessForm::default(),
        format!("results/{}/{}", owner, id),
        submitted,
    )
}

#[test]
fn test_remaining_quota_saturates() {
    assert_eq!(remaining_quota(&sample_user("a", 10, 3)), 7);
    assert_eq!(remaining_quota(&sample_user("a", 10, 10)), 0);
    assert_eq!(remaining_quota(&sample_user("a", 10, 12)), 0);
}

#[test]
fn test_exhausted_quota_rejected_before_engine() {
    // A user with quota 10 and used quota 10 has no seconds left: the next
    // dispatched task fails with QuotaExceeded without running the engine.
    let mut store = MemoryStore::new();
    let mut user = sample_user("alice", 10, 10);
    user.tasks.push("t1".to_string());
    store.save_user(user);
    let task = sample_task("t1", "alice", 100);
    store.save_task(task);

    let quota = get_user_quota(&store, &"alice".to_string());
    match quota {
        Err(WorkerError::QuotaExceeded(name)) => assert_eq!(name, "alice"),
        other => panic!("expected QuotaExceeded, got {:?}", other),
    }

    // The worker reconciles the task straight to Failed.
    let r = update_task_result_user_quota(
        &mut store,
        &"t1".to_string(),
        TaskStatus::Failed,
        None,
        130,
    );
    assert!(r.is_ok());
    let task = store.get_task(&"t1".to_string()).unwrap();
    assert!(matches!(task.status, TaskStatus::Failed));
    assert!(task.result.is_none());
    assert_eq!(task.completion_time, Some(130));
}

#[test]
fn test_timeout_charges_full_wall_time() {
    // A computation that outlives the remaining quota ends Failed with a
    // Timeout, and the user is charged the full wall-clock time from
    // submission, queue wait included.
    let mut store = MemoryStore::new();
    store.save_user(sample_user("bob", 100, 90));
    let task = sample_task("t2", "bob", 1000);
    store.save_task(task.clone());
    store.enqueue(task);

    let popped = store.dequeue_one().expect("queued task");
    assert_eq!(popped.task_id, "t2");

    let r = update_task_status(&mut store, &"t2".to_string(), TaskStatus::Processing);
    assert!(r.is_ok());
    assert!(matches!(
        store.get_task(&"t2".to_string()).unwrap().status,
        TaskStatus::Processing
    ));

    let deadline = get_user_quota(&store, &"bob".to_string()).expect("remaining quota");
    assert_eq!(deadline, 10);

    // The injected slow computation does not finish before the deadline.
    let outcome = resolve_outcome(ExecutionOutcome::TimedOut, deadline);
    let err = outcome.unwrap_err();
    assert!(matches!(err, WorkerError::Timeout(10)));

    // Finalisation happens 25 seconds after submission: 15 seconds of
    // queue wait plus the 10-second execution window.
    let r = update_task_result_user_quota(
        &mut store,
        &"t2".to_string(),
        TaskStatus::Failed,
        None,
        1025,
    );
    assert!(r.is_ok());
    let task = store.get_task(&"t2".to_string()).unwrap();
    assert!(matches!(task.status, TaskStatus::Failed));
    assert!(task.result.is_none());
    assert_eq!(task.completion_time, Some(1025));
    let user = store.get_user(&"bob".to_string()).unwrap();
    assert_eq!(user.used_quota, 90 + 25);
}

#[test]
fn test_panic_becomes_failed_task() {
    let outcome = resolve_outcome(
        ExecutionOutcome::Panicked("stack overflow".to_string()),
        42,
    );
    match outcome {
        Err(WorkerError::TaskPanic(msg)) => assert_eq!(msg, "stack overflow"),
        other => panic!("expected TaskPanic, got {:?}", other),
    }
}

#[test]
fn test_finished_outcome_passes_through() {
    let pairs = vec![(b"ATG".to_vec(), 2u32)];
    let outcome = resolve_outcome(ExecutionOutcome::Finished(Ok(pairs.clone())), 5);
    assert_eq!(outcome.unwrap(), pairs);
}

#[test]
fn test_elapsed_seconds_counts_from_submission() {
    assert_eq!(elapsed_seconds(100, 125), 25);
    assert_eq!(elapsed_seconds(100, 100), 0);
    assert_eq!(elapsed_seconds(100, 90), 0);
}

#[test]
fn test_update_task_status_missing_task() {
    let mut store = MemoryStore::new();
    let r = update_task_status(&mut store, &"ghost".to_string(), TaskStatus::Processing);
    match r {
        Err(WorkerError::Processing(id)) => assert_eq!(id, "ghost"),
        other => panic!("expected Processing error, got {:?}", other),
    }
}

#[test]
fn test_finalize_missing_user_leaves_store_unchanged() {
    let mut store = MemoryStore::new();
    store.save_task(sample_task("t9", "nobody", 5));
    let r =
        update_task_result_user_quota(&mut store, &"t9".to_string(), TaskStatus::Failed, None, 9);
    match r {
        Err(WorkerError::Processing(name)) => assert_eq!(name, "nobody"),
        other => panic!("expected Processing error, got {:?}", other),
    }
    // The task record is still there, untouched.
    let task = store.get_task(&"t9".to_string()).unwrap();
    assert!(matches!(task.status, TaskStatus::Queued));
    assert!(task.completion_time.is_none());
}

#[test]
fn test_concurrency_bound_never_exceeded() {
    // With two slots, no interleaving of acquires and releases ever holds
    // more than two at once.
    let mut limiter = ConcurrencyLimiter::new(2);
    assert_eq!(limiter.max_slots(), 2);
    assert_eq!(limiter.active(), 0);

    assert!(limiter.try_acquire());
    assert!(limiter.active() <= limiter.max_slots());
    assert!(limiter.try_acquire());
    assert!(limiter.active() <= limiter.max_slots());
    assert!(!limiter.try_acquire());
    assert_eq!(limiter.active(), 2);

    limiter.release();
    assert_eq!(limiter.active(), 1);
    assert!(limiter.try_acquire());
    assert!(!limiter.try_acquire());
    assert!(limiter.active() <= limiter.max_slots());

    // Drain and drive it through a longer schedule.
    limiter.release();
    limiter.release();
    let mut held = 0usize;
    for step in 0..50 {
        if step % 3 == 0 && held > 0 {
            limiter.release();
            held -= 1;
        } else if limiter.try_acquire() {
            held += 1;
        }
        assert!(limiter.active() <= limiter.max_slots());
        assert_eq!(limiter.active(), held);
    }
}

#[test]
fn test_delete_task_removes_from_store_and_user() {
    let mut store = MemoryStore::new();
    let mut user = sample_user("carol", 50, 0);
    user.tasks.push("t3".to_string());
    user.tasks.push("t4".to_string());
    store.save_user(user);
    store.save_task(sample_task("t3", "carol", 1));
    store.save_task(sample_task("t4", "carol", 2));

    let r = delete_task_for_user(&mut store, &"carol".to_string(), &"t3".to_string());
    assert!(r.is_ok());

    // A subsequent lookup finds nothing, and the id left the task list
    // exactly once.
    assert!(store.get_task(&"t3".to_string()).is_none());
    let user = store.get_user(&"carol".to_string()).unwrap();
    assert_eq!(user.tasks, vec!["t4".to_string()]);

    // The other task is untouched.
    assert!(store.get_task(&"t4".to_string()).is_some());

    // Deleting the same id again changes nothing.
    let r = delete_task_for_user(&mut store, &"carol".to_string(), &"t3".to_string());
    assert!(r.is_ok());
    assert!(store.get_task(&"t3".to_string()).is_none());
    let user = store.get_user(&"carol".to_string()).unwrap();
    assert_eq!(user.tasks, vec!["t4".to_string()]);
}

#[test]
fn test_queue_is_first_in_first_out() {
    let mut store = MemoryStore::new();
    store.enqueue(sample_task("a", "u", 1));
    store.enqueue(sample_task("b", "u", 2));
    assert_eq!(store.dequeue_one().unwrap().task_id, "a");
    assert_eq!(store.dequeue_one().unwrap().task_id, "b");
    assert!(store.dequeue_one().is_none());
}

#[test]
fn test_register_and_login() {
    let user = register_user(
        None,
        &"dave".to_string(),
        &"secret".to_string(),
        &"secret".to_string(),
    )
    .expect("registration succeeds");
    assert_eq!(user.username, "dave");
    assert_eq!(user.quota, 36000);
    assert_eq!(user.used_quota, 0);
    assert!(user.tasks.is_empty());

    assert!(check_login(Some(&user), &"secret".to_string()).is_ok());
    assert_eq!(
        check_login(Some(&user), &"wrong".to_string()),
        Err(AuthError::WrongPassword)
    );
    assert_eq!(
        check_login(None, &"secret".to_string()),
        Err(AuthError::UnknownUsername)
    );
}

#[test]
fn test_register_rejections() {
    let existing = sample_user("erin", 1, 0);
    assert_eq!(
        register_user(
            Some(&existing),
            &"erin".to_string(),
            &"pw".to_string(),
            &"pw".to_string()
        )
        .unwrap_err(),
        AuthError::UsernameTaken
    );
    assert_eq!(
        register_user(
            None,
            &"erin".to_string(),
            &"pw".to_string(),
            &"other".to_string()
        )
        .unwrap_err(),
        AuthError::PasswordMismatch
    );
}

#[test]
fn test_user_remove_task_removes_all_occurrences() {
    let mut user = sample_user("frank", 1, 0);
    user.tasks.push("x".to_string());
    user.tasks.push("y".to_string());
    user.tasks.push("x".to_string());
    user.remove_task(&"x".to_string());
    assert_eq!(user.tasks, vec!["y".to_string()]);
    user.remove_task(&"x".to_string());
    assert_eq!(user.tasks, vec!["y".to_string()]);
}

#[test]
fn test_sort_tasks_newest_first() {
    let mut tasks = vec![
        sample_task("old", "u", 10),
        sample_task("new", "u", 30),
        sample_task("mid", "u", 20),
    ];
    sort_tasks_by_submission_desc(&mut tasks);
    let ids: Vec<&str> = tasks.iter().map(|t| t.task_id.as_str()).collect();
    assert_eq!(ids, vec!["new", "mid", "old"]);
}
