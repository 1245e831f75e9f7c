use workpool::ExecuteError;
use workpool::Receipt;
use workpool::WorkQueue;

#[test]
fn queue_is_fifo() {
    let mut q = WorkQueue::new();
    assert_eq!(q.len(), 0);
    q.send(7).unwrap();
    q.send(8).unwrap();
    q.send(9).unwrap();
    assert_eq!(q.len(), 3);
    assert_eq!(q.try_receive(), Receipt::Job(7));
    assert_eq!(q.try_receive(), Receipt::Job(8));
    assert_eq!(q.try_receive(), Receipt::Job(9));
    assert_eq!(q.try_receive(), Receipt::Pending);
}

#[test]
fn closed_queue_rejects_sends_but_still_drains() {
    let mut q = WorkQueue::new();
    q.send(1).unwrap();
    q.send(2).unwrap();
    q.close();
    assert!(q.is_closed());
    assert_eq!(q.send(3), Err(ExecuteError::ChannelClosed));
    assert_eq!(q.len(), 2);
    assert_eq!(q.try_receive(), Receipt::Job(1));
    assert_eq!(q.try_receive(), Receipt::Job(2));
    assert_eq!(q.try_receive(), Receipt::Disconnected);
}

#[test]
fn empty_open_queue_asks_receiver_to_wait() {
    let mut q = WorkQueue::new();
    assert_eq!(q.try_receive(), Receipt::Pending);
    assert!(!q.is_closed());
    q.close();
    assert_eq!(q.try_receive(), Receipt::Disconnected);
}
