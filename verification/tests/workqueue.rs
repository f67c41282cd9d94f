use idunn::workqueue::{dispatch, Dispatch, IdunnTask, WorkQueue, BUSY_PAUSE_MS, IDLE_PAUSE_MS};

#[test]
fn new_queue_is_empty() {
    let wq = WorkQueue::new();
    assert!(wq.queue.is_empty());
}

#[test]
fn worker_takes_the_newest_task_first() {
    let mut wq = WorkQueue::new();
    wq.insert(IdunnTask::Ping { address: "a:1".to_string() });
    wq.insert(IdunnTask::Introduce { keyid: "K".to_string(), address: "b:2".to_string() });
    assert_eq!(wq.queue.len(), 2);
    let s = wq.worker_step();
    assert_eq!(s.pause_ms, BUSY_PAUSE_MS);
    assert_eq!(s.dispatch, Some(Dispatch::Introduce { keyid: "K".to_string(), address: "b:2".to_string() }));
    let s = wq.worker_step();
    assert_eq!(s.pause_ms, 10);
    assert_eq!(s.dispatch, Some(Dispatch::NotePing { address: "a:1".to_string() }));
    let s = wq.worker_step();
    assert_eq!(s.pause_ms, IDLE_PAUSE_MS);
    assert_eq!(s.pause_ms, 3000);
    assert_eq!(s.dispatch, None);
    assert!(wq.queue.is_empty());
}

#[test]
fn dispatch_ignores_where_is_and_peer_list() {
    assert_eq!(dispatch(IdunnTask::WhereIs { keyid: "K".to_string() }), Dispatch::Ignore);
    assert_eq!(dispatch(IdunnTask::PeerList), Dispatch::Ignore);
    assert_eq!(
        dispatch(IdunnTask::Ping { address: "x".to_string() }),
        Dispatch::NotePing { address: "x".to_string() }
    );
}
