use qrun::thread_pool::ThreadPool;

#[test]
fn new_pool_is_idle() {
    let pool = ThreadPool::new(3);
    assert_eq!(pool.capacity(), 3);
    assert!(!pool.is_ongoing());
    assert!(pool.has_one_available());
    assert_eq!(pool.get_one_available(), Some(0));
    for i in 0..3 {
        let slot = pool.slot(i);
        assert!(!slot.running);
        assert!(!slot.fresh);
        assert_eq!(slot.task, "");
        assert_eq!(slot.processed, 0);
        assert_eq!(slot.successes, 0);
        assert_eq!(slot.failures, 0);
    }
}

#[test]
fn empty_pool_has_nothing_available() {
    let pool = ThreadPool::new(0);
    assert_eq!(pool.capacity(), 0);
    assert!(!pool.has_one_available());
    assert_eq!(pool.get_one_available(), None);
    assert!(!pool.is_ongoing());
}

#[test]
fn start_books_task_into_slot() {
    let mut pool = ThreadPool::new(2);
    pool.start(1, String::from("echo hi"), 1234);
    let slot = pool.slot(1);
    assert!(slot.running);
    assert!(slot.fresh);
    assert_eq!(slot.task, "echo hi");
    assert_eq!(slot.started_at, 1234);
    assert_eq!(slot.processed, 1);
    assert_eq!(slot.successes, 0);
    assert_eq!(slot.failures, 0);
    assert!(!pool.slot(0).running);
    assert!(pool.is_ongoing());
    assert!(pool.has_one_available());
    assert_eq!(pool.get_one_available(), Some(0));
}

#[test]
fn exec_task_books_task_into_slot() {
    let mut pool = ThreadPool::new(1);
    pool.exec_task(0, String::from("true"));
    let slot = pool.slot(0);
    assert!(slot.running);
    assert!(slot.fresh);
    assert_eq!(slot.task, "true");
    assert_eq!(slot.processed, 1);
    assert!(!pool.has_one_available());
    assert_eq!(pool.get_one_available(), None);
}

#[test]
fn get_one_available_picks_lowest_idle() {
    let mut pool = ThreadPool::new(3);
    pool.start(0, String::from("a"), 1);
    pool.start(1, String::from("b"), 2);
    assert_eq!(pool.get_one_available(), Some(2));
    pool.update(&vec![Some(0), None, None]);
    assert_eq!(pool.get_one_available(), Some(0));
}

#[test]
fn update_counts_success_and_failure() {
    let mut pool = ThreadPool::new(3);
    pool.start(0, String::from("a"), 1);
    pool.start(1, String::from("b"), 2);
    pool.start(2, String::from("c"), 3);
    pool.update(&vec![Some(0), Some(7), None]);
    assert!(!pool.slot(0).running);
    assert_eq!((pool.slot(0).successes, pool.slot(0).failures), (1, 0));
    assert!(!pool.slot(1).running);
    assert_eq!((pool.slot(1).successes, pool.slot(1).failures), (0, 1));
    assert!(pool.slot(2).running);
    assert_eq!((pool.slot(2).successes, pool.slot(2).failures), (0, 0));
    assert_eq!(pool.slot(0).task, "a");
    assert!(pool.is_ongoing());
    pool.update(&vec![None, None, Some(-1)]);
    assert_eq!((pool.slot(2).successes, pool.slot(2).failures), (0, 1));
    assert!(!pool.is_ongoing());
}

#[test]
fn update_clears_fresh_markers() {
    let mut pool = ThreadPool::new(2);
    pool.start(0, String::from("a"), 1);
    assert!(pool.slot(0).fresh);
    pool.update(&vec![None, None]);
    assert!(!pool.slot(0).fresh);
    assert!(pool.slot(0).running);
}

#[test]
fn update_ignores_exit_of_idle_slot_and_short_report() {
    let mut pool = ThreadPool::new(2);
    pool.start(1, String::from("a"), 1);
    pool.update(&vec![Some(0)]);
    assert_eq!((pool.slot(0).successes, pool.slot(0).failures), (0, 0));
    assert!(pool.slot(1).running);
    pool.update(&vec![]);
    assert!(pool.slot(1).running);
    pool.update(&vec![None, Some(0), Some(0), Some(3)]);
    assert!(!pool.slot(1).running);
    assert_eq!(pool.slot(1).successes, 1);
}

#[test]
fn slot_is_reused_after_completion() {
    let mut pool = ThreadPool::new(1);
    pool.start(0, String::from("a"), 1);
    pool.update(&vec![Some(0)]);
    pool.start(0, String::from("b"), 2);
    pool.update(&vec![Some(1)]);
    let slot = pool.slot(0);
    assert_eq!(slot.processed, 2);
    assert_eq!(slot.successes, 1);
    assert_eq!(slot.failures, 1);
    assert_eq!(slot.task, "b");
    assert_eq!(slot.started_at, 2);
}

#[test]
fn running_never_exceeds_capacity() {
    let mut pool = ThreadPool::new(2);
    let mut round = 0;
    while round < 5 {
        while pool.has_one_available() {
            let id = pool.get_one_available().unwrap();
            pool.exec_task(id, format!("task {}", round));
            let running = (0..pool.capacity()).filter(|&i| pool.slot(i).running).count();
            assert!(running <= pool.capacity());
        }
        assert_eq!(pool.get_one_available(), None);
        pool.update(&vec![Some(0), None]);
        round += 1;
    }
}

#[test]
fn render_idle_pool() {
    let pool = ThreadPool::new(2);
    let expected = String::from("[THREAD STATUS SUCCESS FAILURE] CMD\n")
        + "[    T0  Idle        0       0] \n"
        + "[    T1  Idle        0       0] \n"
        + "[     0              0       0]\n";
    assert_eq!(pool.render(), expected);
}

#[test]
fn render_fresh_and_counted_slots() {
    let mut pool = ThreadPool::new(3);
    pool.start(0, String::from("sleep 1"), 1);
    pool.update(&vec![Some(0), None, None]);
    pool.start(0, String::from("echo again"), 2);
    pool.start(1, String::from("false"), 3);
    pool.update(&vec![None, Some(1), None]);
    pool.start(2, String::from("ls -la"), 4);
    let mut expected = String::from("[THREAD STATUS SUCCESS FAILURE] CMD\n");
    expected += &format!("{}[{: >6} {} {: >7}{: >8}] {}{}\n", "", "T0", "Active", 1, 0, "echo again", "");
    expected += &format!("{}[{: >6} {} {: >7}{: >8}] {}{}\n", "", "T1", " Idle ", 0, 1, "false", "");
    expected += &format!(
        "{}[{: >6} {} {: >7}{: >8}] {}{}\n",
        "\x1b[34m", "T2", "Active", 0, 0, "ls -la", "\x1b[0m"
    );
    expected += &format!("[{: >6} {} {: >7}{: >8}]\n", 1, "      ", 1, 1);
    assert_eq!(pool.render(), expected);
    assert!(pool.render().contains("\x1b[34m[    T2 Active       0       0] ls -la\x1b[0m\n"));
    assert!(pool.render().ends_with("[     1              1       1]\n"));
}

#[test]
fn render_clips_long_task() {
    let mut pool = ThreadPool::new(1);
    let long: String = "é".repeat(30) + &"x".repeat(30);
    pool.start(0, long.clone(), 1);
    pool.update(&vec![None]);
    let shown: String = long.chars().take(48).collect();
    assert_eq!(shown.chars().count(), 48);
    let row = format!("[    T0 Active       0       0] {}\n", shown);
    assert!(pool.render().contains(&row));
    assert!(!pool.render().contains(&format!("{}x", shown)));
}

#[test]
fn render_wide_slot_name_is_not_cut() {
    let pool = ThreadPool::new(100001);
    let text = pool.render();
    assert!(text.contains("\n[    T9  Idle        0       0] \n"));
    assert!(text.contains("\n[T99999  Idle        0       0] \n"));
    assert!(text.contains("\n[T100000  Idle        0       0] \n"));
    assert!(text.contains(&format!("\n[{: >6}  Idle  {: >7}{: >8}] \n", "T100000", 0, 0)));
}

#[test]
fn rewind_counts_rows_header_and_footer() {
    assert_eq!(ThreadPool::new(0).rewind(), "\x1b[2A");
    assert_eq!(ThreadPool::new(3).rewind(), "\x1b[5A");
    assert_eq!(ThreadPool::new(10).rewind(), "\x1b[12A");
}

#[test]
fn dispatch_takes_lowest_idle_slot() {
    let mut pool = ThreadPool::new(3);
    assert_eq!(pool.dispatch(String::from("a")), 0);
    assert_eq!(pool.dispatch(String::from("b")), 1);
    pool.update(&vec![Some(0), None, None]);
    assert_eq!(pool.dispatch(String::from("c")), 0);
    assert_eq!(pool.dispatch(String::from("d")), 2);
    assert!(!pool.has_one_available());
    assert_eq!(pool.slot(0).task, "c");
    assert!(pool.slot(0).fresh);
    assert_eq!(pool.slot(0).processed, 2);
    assert_eq!(pool.slot(1).task, "b");
    assert!(!pool.slot(1).fresh);
    assert_eq!(pool.slot(2).task, "d");
}

#[test]
fn fresh_pool_can_count_next() {
    let mut pool = ThreadPool::new(2);
    assert!(pool.can_count_next());
    pool.start(0, String::from("a"), 1);
    pool.start(1, String::from("b"), 2);
    assert!(pool.can_count_next());
    pool.update(&vec![Some(0), Some(1)]);
    assert!(pool.can_count_next());
}
