use qrun::runner::{conclude, next_dispatch, Verdict};
use qrun::rw_file::read;
use qrun::thread_pool::ThreadPool;

fn strings(items: &[&str]) -> Vec<String> {
    items.iter().map(|s| s.to_string()).collect()
}

fn running(pool: &ThreadPool) -> usize {
    (0..pool.capacity()).filter(|&i| pool.slot(i).running).count()
}

fn fill(pool: &mut ThreadPool, queue: &mut Vec<String>, locked: bool, cancelled: bool) -> Vec<(usize, String)> {
    let mut out = Vec::new();
    while let Some(d) = next_dispatch(pool, queue, locked, cancelled) {
        out.push((d.slot, d.task));
    }
    out
}

#[test]
fn three_tasks_on_two_slots() {
    let mut pool = ThreadPool::new(2);
    let mut queue = strings(&["true 1", "true 2", "true 3"]);

    let first = fill(&mut pool, &mut queue, false, false);
    assert_eq!(first, vec![(0, String::from("true 1")), (1, String::from("true 2"))]);
    assert_eq!(running(&pool), 2);
    assert_eq!(queue, strings(&["true 3"]));
    pool.update(&vec![Some(0), None]);
    assert_eq!(conclude(&pool, true, &queue, false, false), Verdict { remove_backlog: false, stop: false });

    let second = fill(&mut pool, &mut queue, false, false);
    assert_eq!(second, vec![(0, String::from("true 3"))]);
    assert!(queue.is_empty());
    pool.update(&vec![None, Some(0)]);
    assert_eq!(conclude(&pool, true, &queue, false, false), Verdict { remove_backlog: false, stop: false });

    assert!(fill(&mut pool, &mut queue, false, false).is_empty());
    pool.update(&vec![Some(0), None]);
    assert_eq!(conclude(&pool, true, &queue, false, false), Verdict { remove_backlog: true, stop: true });
    let successes: u64 = (0..2).map(|i| pool.slot(i).successes).sum();
    let failures: u64 = (0..2).map(|i| pool.slot(i).failures).sum();
    assert_eq!(successes, 3);
    assert_eq!(failures, 0);
}

#[test]
fn shutdown_leaves_queue_and_waits_for_worker() {
    let mut pool = ThreadPool::new(2);
    let mut queue = strings(&["a", "b", "c"]);
    let d = next_dispatch(&mut pool, &mut queue, false, false).unwrap();
    assert_eq!((d.slot, d.task.as_str()), (0, "a"));
    let persisted = qrun::rw_file::write(&queue);

    assert!(next_dispatch(&mut pool, &mut queue, false, true).is_none());
    assert_eq!(queue, strings(&["b", "c"]));
    pool.update(&vec![None, None]);
    assert_eq!(conclude(&pool, true, &queue, true, false), Verdict { remove_backlog: false, stop: false });

    assert!(next_dispatch(&mut pool, &mut queue, false, true).is_none());
    pool.update(&vec![Some(0), None]);
    assert_eq!(conclude(&pool, true, &queue, true, false), Verdict { remove_backlog: false, stop: true });
    assert_eq!(read(&persisted), strings(&["b", "c"]));
    assert_eq!(qrun::rw_file::write(&queue), "b\nc\n");
    assert_eq!(pool.slot(0).successes, 1);
    assert!(!pool.slot(1).running);
}

#[test]
fn lock_marker_holds_dispatch_and_release_resumes() {
    let mut pool = ThreadPool::new(3);
    let mut queue = strings(&["a", "b"]);
    let d = next_dispatch(&mut pool, &mut queue, false, false).unwrap();
    assert_eq!(d.slot, 0);

    assert!(next_dispatch(&mut pool, &mut queue, true, false).is_none());
    assert_eq!(queue, strings(&["b"]));
    assert!(pool.slot(0).running);
    assert_eq!(pool.slot(0).task, "a");
    assert_eq!(running(&pool), 1);
    pool.update(&vec![None, None, None]);
    assert!(pool.slot(0).running);
    assert_eq!(conclude(&pool, true, &queue, false, false), Verdict { remove_backlog: false, stop: false });

    let d = next_dispatch(&mut pool, &mut queue, false, false).unwrap();
    assert_eq!((d.slot, d.task.as_str()), (1, "b"));
    assert!(queue.is_empty());
}

#[test]
fn every_task_is_dispatched_once_in_order() {
    let lines: Vec<String> = (0..17).map(|i| format!("job {}", i)).collect();
    for capacity in 1..5 {
        let mut pool = ThreadPool::new(capacity);
        let mut queue = read(&qrun::rw_file::write(&lines));
        let mut history: Vec<String> = Vec::new();
        let mut ticks = 0;
        loop {
            for (_, task) in fill(&mut pool, &mut queue, false, false) {
                history.push(task);
            }
            assert!(running(&pool) <= capacity);
            let mut joined = history.clone();
            joined.extend(queue.iter().cloned());
            assert_eq!(joined, lines);
            let exits: Vec<Option<i32>> = (0..capacity).map(|i| if (i + ticks) % 2 == 0 { Some(0) } else { None }).collect();
            pool.update(&exits);
            ticks += 1;
            if conclude(&pool, true, &queue, false, false).stop {
                break;
            }
            assert!(ticks < 1000);
        }
        assert_eq!(history, lines);
        assert!(queue.is_empty());
    }
}

#[test]
fn no_dispatch_without_idle_slot_or_task() {
    let mut pool = ThreadPool::new(1);
    let mut queue = strings(&["a", "b"]);
    assert!(next_dispatch(&mut pool, &mut queue, false, false).is_some());
    assert!(next_dispatch(&mut pool, &mut queue, false, false).is_none());
    assert_eq!(queue, strings(&["b"]));
    let mut empty: Vec<String> = Vec::new();
    let mut idle = ThreadPool::new(2);
    assert!(next_dispatch(&mut idle, &mut empty, false, false).is_none());
    let mut none = ThreadPool::new(0);
    assert!(next_dispatch(&mut none, &mut queue, false, false).is_none());
}

#[test]
fn conclude_in_persistent_mode_removes_and_continues() {
    let pool = ThreadPool::new(2);
    let queue: Vec<String> = Vec::new();
    assert_eq!(conclude(&pool, true, &queue, false, true), Verdict { remove_backlog: true, stop: false });
    assert_eq!(conclude(&pool, true, &queue, true, true), Verdict { remove_backlog: true, stop: true });
    assert_eq!(conclude(&pool, true, &queue, false, false), Verdict { remove_backlog: true, stop: true });
}

#[test]
fn conclude_waits_while_a_slot_runs() {
    let mut pool = ThreadPool::new(1);
    pool.start(0, String::from("a"), 1);
    let queue: Vec<String> = Vec::new();
    assert_eq!(conclude(&pool, true, &queue, true, false), Verdict { remove_backlog: false, stop: false });
    assert_eq!(conclude(&pool, true, &queue, false, false), Verdict { remove_backlog: false, stop: false });
}

#[test]
fn conclude_without_backlog_waits_unless_cancelled() {
    let pool = ThreadPool::new(2);
    let queue: Vec<String> = Vec::new();
    assert_eq!(conclude(&pool, false, &queue, false, false), Verdict { remove_backlog: false, stop: false });
    assert_eq!(conclude(&pool, false, &queue, false, true), Verdict { remove_backlog: false, stop: false });
    assert_eq!(conclude(&pool, false, &queue, true, false), Verdict { remove_backlog: false, stop: true });
    let mut busy = ThreadPool::new(1);
    busy.start(0, String::from("a"), 1);
    assert_eq!(conclude(&busy, false, &queue, true, false), Verdict { remove_backlog: false, stop: false });
}

#[test]
fn three_clean_tasks_count_three_successes_on_any_schedule() {
    let schedules: Vec<Vec<Vec<Option<i32>>>> = vec![
        vec![vec![Some(0), Some(0)], vec![Some(0), None]],
        vec![vec![None, Some(0)], vec![Some(0), None], vec![None, Some(0)]],
        vec![vec![None, None], vec![Some(0), Some(0)], vec![None, None], vec![Some(0), None]],
        vec![vec![Some(0), None], vec![None, None], vec![Some(0), Some(0)]],
    ];
    for schedule in schedules {
        let mut pool = ThreadPool::new(2);
        let mut queue = strings(&["t1", "t2", "t3"]);
        let mut history: Vec<String> = Vec::new();
        let mut stopped = false;
        for exits in schedule {
            for (_, task) in fill(&mut pool, &mut queue, false, false) {
                history.push(task);
            }
            pool.update(&exits);
            let successes: u64 = (0..2).map(|i| pool.slot(i).successes).sum();
            let failures: u64 = (0..2).map(|i| pool.slot(i).failures).sum();
            assert_eq!(successes as usize + running(&pool), history.len());
            assert_eq!(failures, 0);
            stopped = conclude(&pool, true, &queue, false, false).stop;
        }
        assert!(stopped);
        assert_eq!(history, strings(&["t1", "t2", "t3"]));
        let successes: u64 = (0..2).map(|i| pool.slot(i).successes).sum();
        assert_eq!(successes, 3);
        assert!(!pool.is_ongoing());
    }
}

#[test]
fn failed_tasks_are_counted_and_not_queued_again() {
    let mut pool = ThreadPool::new(2);
    let mut queue = strings(&["t1", "t2", "t3"]);
    assert_eq!(fill(&mut pool, &mut queue, false, false).len(), 2);
    pool.update(&vec![Some(1), Some(-1)]);
    assert_eq!(queue, strings(&["t3"]));
    assert_eq!(fill(&mut pool, &mut queue, false, false).len(), 1);
    pool.update(&vec![Some(0), None]);
    assert!(queue.is_empty());
    let successes: u64 = (0..2).map(|i| pool.slot(i).successes).sum();
    let failures: u64 = (0..2).map(|i| pool.slot(i).failures).sum();
    assert_eq!((successes, failures), (1, 2));
    assert!(conclude(&pool, true, &queue, false, false).stop);
}

#[test]
fn shutdown_holds_dispatch_on_every_later_tick() {
    let mut pool = ThreadPool::new(3);
    let mut queue = strings(&["a", "b", "c"]);
    assert!(next_dispatch(&mut pool, &mut queue, false, false).is_some());
    for tick in 0..5 {
        assert!(next_dispatch(&mut pool, &mut queue, tick % 2 == 0, true).is_none());
        assert_eq!(queue, strings(&["b", "c"]));
        assert_eq!(running(&pool), 1);
        pool.update(&vec![None, None, None]);
    }
}
