use least_conn::coordinator::handle_frame;
use least_conn::least_conn_server::LCS;
use least_conn::protocol::{encode_command, Command};
use least_conn::worker::WorkerState;

const X: [u8; 6] = [10, 0, 0, 2, 0x1f, 0x90];
const Y: [u8; 6] = [10, 0, 0, 3, 0x1f, 0x91];

fn count_of(lcs: &LCS, key: &[u8; 6]) -> Option<u32> {
    lcs.get_stats()
        .unwrap()
        .into_iter()
        .find(|(k, _)| k == key)
        .map(|(_, c)| c)
}

#[test]
fn new_client_is_buffered_and_queried_once() {
    let mut w = WorkerState::new();
    let cmd = w.on_client_data(7, b"GET / HTTP/1.1\r\n\r\n".to_vec());
    assert!(matches!(cmd, Some(Command::Assign { client_id: 7 })));
    assert_eq!(w.pending_len(), 1);
    // More bytes from the same client: no second outstanding query.
    assert!(w.on_client_data(7, b"more".to_vec()).is_none());
    assert_eq!(w.pending_len(), 1);
}

#[test]
fn pipelined_replies_correlate_by_echoed_id() {
    // Queries for clients 7 and 9 are sent before any reply is read; the
    // replies are then consumed in the opposite order and still match the
    // right buffered request.
    let mut w = WorkerState::new();
    assert!(w.on_client_data(7, b"seven".to_vec()).is_some());
    assert!(w.on_client_data(9, b"nine".to_vec()).is_some());

    assert_eq!(w.take_pending(9).unwrap(), b"nine".to_vec());
    assert_eq!(w.take_pending(7).unwrap(), b"seven".to_vec());
    assert_eq!(w.pending_len(), 0);

    // Same exchange, replies in send order.
    let mut w = WorkerState::new();
    assert!(w.on_client_data(7, b"seven".to_vec()).is_some());
    assert!(w.on_client_data(9, b"nine".to_vec()).is_some());
    assert_eq!(w.take_pending(7).unwrap(), b"seven".to_vec());
    assert_eq!(w.take_pending(9).unwrap(), b"nine".to_vec());
}

#[test]
fn stale_reply_is_ignored() {
    let mut w = WorkerState::new();
    assert!(w.on_client_data(7, b"seven".to_vec()).is_some());
    assert!(w.take_pending(8).is_none());
    assert_eq!(w.pending_len(), 1);
}

#[test]
fn completion_releases_the_assigned_backend() {
    let mut w = WorkerState::new();
    w.record_assignment(100, 7, &X);
    assert!(w.has_conn(100));
    let (client, cmd) = w.on_backend_done(100).unwrap();
    assert_eq!(client, 7);
    assert!(matches!(cmd, Command::Release { server } if server == X));
    assert!(!w.has_conn(100));
    assert!(w.on_backend_done(100).is_none());
}

#[test]
fn connect_failure_repairs_exactly_once_per_client() {
    // Backend X has in-flight clients 3 and 5; Y serves client 8. The
    // failure of X sends exactly one deregister and exactly two releases,
    // and leaves Y's assignment alone.
    let mut w = WorkerState::new();
    w.record_assignment(100, 3, &X);
    w.record_assignment(101, 5, &X);
    w.record_assignment(102, 8, &Y);

    let cmds = w.on_connect_failure(&X);
    assert_eq!(cmds.len(), 3);
    assert!(matches!(cmds[0], Command::Deregister { server } if server == X));
    assert!(matches!(cmds[1], Command::Release { server } if server == X));
    assert!(matches!(cmds[2], Command::Release { server } if server == X));

    assert_eq!(w.assignment_len(), 1);
    assert!(!w.has_conn(100));
    assert!(!w.has_conn(101));
    assert!(w.has_conn(102));
}

#[test]
fn connect_failure_leaves_no_count_leak() {
    // The coordinator committed increments for X before the failure was
    // seen; replaying the repair commands leaves the index with X gone
    // and the other backend's count untouched.
    let mut lcs = LCS::new();
    lcs.insert(&X).unwrap();
    lcs.insert(&Y).unwrap();
    lcs.server_conn_increament(&X).unwrap();
    lcs.server_conn_increament(&X).unwrap();
    lcs.server_conn_increament(&Y).unwrap();

    let mut w = WorkerState::new();
    w.record_assignment(100, 3, &X);
    w.record_assignment(101, 5, &X);
    w.record_assignment(102, 8, &Y);

    for cmd in w.on_connect_failure(&X) {
        assert_eq!(handle_frame(&mut lcs, &encode_command(&cmd)), Ok(None));
    }

    assert_eq!(count_of(&lcs, &X), None);
    assert_eq!(count_of(&lcs, &Y), Some(1));
    assert_eq!(lcs.get_least_conn_server().unwrap(), Y);
}

#[test]
fn failure_with_no_recorded_clients_still_deregisters() {
    let mut w = WorkerState::new();
    let cmds = w.on_connect_failure(&X);
    assert_eq!(cmds.len(), 1);
    assert!(matches!(cmds[0], Command::Deregister { server } if server == X));
}
