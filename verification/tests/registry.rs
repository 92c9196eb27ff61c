use monitor::registry::MonitorManager;

fn block_on<F: std::future::Future>(future: F) -> F::Output {
    tokio::runtime::Builder::new_current_thread()
        .build()
        .unwrap()
        .block_on(future)
}

#[test]
fn registry_tracks_insert_list_and_remove() {
    block_on(async {
        let mut manager = MonitorManager::new();
        manager.insert(
            "mon_a".to_string(),
            1,
            "watch a".to_string(),
            "cmd a".to_string(),
            tokio::spawn(async {}),
        );
        manager.insert(
            "mon_b".to_string(),
            2,
            "watch b".to_string(),
            "cmd b".to_string(),
            tokio::spawn(async {}),
        );

        assert_eq!(manager.list().len(), 2);

        // `remove` returns the process id so the caller can terminate it; a
        // second remove of the same id is a no-op.
        assert_eq!(manager.remove("mon_a"), Some(1));
        assert_eq!(manager.remove("mon_a"), None);

        let remaining = manager.list();
        assert_eq!(remaining.len(), 1);
        assert_eq!(remaining[0].id, "mon_b");

        manager.abort_all();
        assert!(manager.list().is_empty());
    });
}

#[test]
fn deregister_self_removes_entry_without_aborting_its_task() {
    block_on(async {
        let mut manager = MonitorManager::new();
        // A task that runs until aborted, so we can observe whether it survives.
        let task = tokio::spawn(std::future::pending::<()>());
        let handle = task.abort_handle();
        manager.insert(
            "mon_x".to_string(),
            7,
            "watch".to_string(),
            "cmd".to_string(),
            task,
        );
        assert_eq!(manager.list().len(), 1);

        manager.deregister_self("mon_x");
        assert!(manager.list().is_empty(), "entry pruned");
        // Unlike `remove`, deregister_self must NOT abort the entry's task: the
        // loop removing itself still has its final exit notice to deliver.
        tokio::task::yield_now().await;
        assert!(
            !handle.is_finished(),
            "deregister_self must not abort the entry's task"
        );

        // Deregistering an absent id is a no-op.
        manager.deregister_self("mon_x");
        assert!(manager.list().is_empty());

        handle.abort();
    });
}

#[test]
fn deregister_self_gives_back_the_task_that_was_inserted() {
    block_on(async {
        let mut manager = MonitorManager::new();
        let first = tokio::spawn(std::future::pending::<()>());
        let first_handle = first.abort_handle();
        let second = tokio::spawn(std::future::pending::<()>());
        let second_id = second.id();
        let second_handle = second.abort_handle();
        manager.insert("m".to_string(), 1, "d".to_string(), "c".to_string(), first);
        manager.insert("m".to_string(), 2, "d".to_string(), "c".to_string(), second);
        assert!(manager.deregister_self("absent").is_none());
        let task = manager.deregister_self("m").unwrap();
        assert_eq!(task.id(), second_id);
        assert!(manager.deregister_self("m").is_none());
        drop(task);
        tokio::task::yield_now().await;
        assert!(first_handle.is_finished());
        assert!(!second_handle.is_finished());
        second_handle.abort();
    });
}

#[test]
fn a_deregistered_task_can_be_registered_again() {
    block_on(async {
        let mut manager = MonitorManager::new();
        let task = tokio::spawn(std::future::pending::<()>());
        let handle = task.abort_handle();
        manager.insert("m".to_string(), 1, "d".to_string(), "c".to_string(), task);
        let task = manager.deregister_self("m").unwrap();
        manager.insert("m".to_string(), 1, "d".to_string(), "c".to_string(), task);
        tokio::task::yield_now().await;
        assert!(!handle.is_finished());
        assert_eq!(manager.remove("m"), Some(1));
        tokio::task::yield_now().await;
        assert!(handle.is_finished());
    });
}

#[test]
fn remove_aborts_the_task() {
    block_on(async {
        let mut manager = MonitorManager::default();
        let task = tokio::spawn(std::future::pending::<()>());
        let handle = task.abort_handle();
        manager.insert("m".to_string(), 3, "d".to_string(), "c".to_string(), task);
        tokio::task::yield_now().await;
        assert!(!handle.is_finished());
        assert_eq!(manager.remove("m"), Some(3));
        tokio::task::yield_now().await;
        assert!(handle.is_finished());
    });
}

#[test]
fn abort_all_aborts_every_task() {
    block_on(async {
        let mut manager = MonitorManager::new();
        let mut handles = Vec::new();
        for i in 0..3 {
            let task = tokio::spawn(std::future::pending::<()>());
            handles.push(task.abort_handle());
            manager.insert(format!("m{i}"), i, String::new(), String::new(), task);
        }
        assert_eq!(manager.list().len(), 3);
        manager.abort_all();
        assert!(manager.list().is_empty());
        tokio::task::yield_now().await;
        for handle in &handles {
            assert!(handle.is_finished());
        }
    });
}

#[test]
fn insert_replaces_what_is_there_and_aborts_its_task() {
    block_on(async {
        let mut manager = MonitorManager::new();
        let first = tokio::spawn(std::future::pending::<()>());
        let first_handle = first.abort_handle();
        let second = tokio::spawn(std::future::pending::<()>());
        let second_handle = second.abort_handle();
        manager.insert("m".to_string(), 1, "one".to_string(), "c1".to_string(), first);
        manager.insert("m".to_string(), 2, "two".to_string(), "c2".to_string(), second);
        let infos = manager.list();
        assert_eq!(infos.len(), 1);
        assert_eq!(infos[0].id, "m");
        assert_eq!(infos[0].description, "two");
        assert_eq!(infos[0].command, "c2");
        tokio::task::yield_now().await;
        assert!(first_handle.is_finished());
        assert!(!second_handle.is_finished());
        assert_eq!(manager.remove("m"), Some(2));
    });
}

#[test]
fn removing_one_monitor_leaves_the_others() {
    block_on(async {
        let mut manager = MonitorManager::new();
        let mut handles = Vec::new();
        for (i, id) in ["a", "b", "c"].iter().enumerate() {
            let task = tokio::spawn(std::future::pending::<()>());
            handles.push(task.abort_handle());
            manager.insert(
                id.to_string(),
                i as i32,
                format!("watch {id}"),
                format!("cmd {id}"),
                task,
            );
        }
        assert_eq!(manager.remove("b"), Some(1));
        assert_eq!(manager.remove("absent"), None);
        let mut left: Vec<(String, String, String)> = manager
            .list()
            .into_iter()
            .map(|info| (info.id, info.description, info.command))
            .collect();
        left.sort();
        assert_eq!(
            left,
            vec![
                ("a".to_string(), "watch a".to_string(), "cmd a".to_string()),
                ("c".to_string(), "watch c".to_string(), "cmd c".to_string()),
            ]
        );
        tokio::task::yield_now().await;
        assert!(!handles[0].is_finished());
        assert!(handles[1].is_finished());
        assert!(!handles[2].is_finished());
    });
}
