use least_conn::LbError;
use least_conn::least_conn_server::{DataNode, LCS};

const A: [u8; 6] = [127, 0, 0, 1, 11, 184];
const B: [u8; 6] = [127, 0, 0, 1, 11, 185];
const C: [u8; 6] = [10, 0, 0, 9, 0, 80];

fn count_of(lcs: &LCS, key: &[u8; 6]) -> Option<u32> {
    lcs.get_stats()
        .unwrap()
        .into_iter()
        .find(|(k, _)| k == key)
        .map(|(_, c)| c)
}

fn least_is_minimal(lcs: &LCS) {
    let stats = lcs.get_stats().unwrap();
    if stats.is_empty() {
        assert_eq!(
            lcs.get_least_conn_server(),
            Err(LbError::NoBackendsAvailable)
        );
        return;
    }
    let least = lcs.get_least_conn_server().unwrap();
    let least_count = count_of(lcs, &least).unwrap();
    for (_, c) in stats {
        assert!(least_count <= c);
    }
}

#[test]
fn fresh_data_node_is_zeroed() {
    let n = DataNode::new();
    assert_eq!(n.server, [0u8; 6]);
    assert_eq!(n.conns, 0);
}

#[test]
fn empty_index_has_no_backend() {
    let lcs = LCS::new();
    assert_eq!(
        lcs.get_least_conn_server(),
        Err(LbError::NoBackendsAvailable)
    );
    assert_eq!(lcs.get_stats().unwrap(), vec![]);
}

#[test]
fn duplicate_insert_is_rejected() {
    let mut lcs = LCS::new();
    assert_eq!(lcs.insert(&A), Ok(()));
    assert_eq!(lcs.insert(&A), Err(LbError::DuplicateBackend));
    assert_eq!(lcs.get_stats().unwrap(), vec![(A, 0)]);
}

#[test]
fn unknown_key_is_rejected() {
    let mut lcs = LCS::new();
    lcs.insert(&A).unwrap();
    assert_eq!(lcs.delete(&B), Err(LbError::UnknownBackend));
    assert_eq!(lcs.server_conn_increament(&B), Err(LbError::UnknownBackend));
    assert_eq!(lcs.server_conn_decreament(&B), Err(LbError::UnknownBackend));
    assert_eq!(lcs.get_stats().unwrap(), vec![(A, 0)]);
}

#[test]
fn decrement_floors_at_zero() {
    let mut lcs = LCS::new();
    lcs.insert(&A).unwrap();
    assert_eq!(lcs.server_conn_decreament(&A), Ok(()));
    assert_eq!(count_of(&lcs, &A), Some(0));
}

#[test]
fn least_loaded_is_always_minimal() {
    // An arbitrary sequence of register, increment, decrement and
    // deregister operations; the answer stays minimal throughout.
    let mut lcs = LCS::new();
    lcs.insert(&A).unwrap();
    least_is_minimal(&lcs);
    lcs.insert(&B).unwrap();
    least_is_minimal(&lcs);
    lcs.server_conn_increament(&A).unwrap();
    least_is_minimal(&lcs);
    lcs.insert(&C).unwrap();
    least_is_minimal(&lcs);
    lcs.server_conn_increament(&B).unwrap();
    least_is_minimal(&lcs);
    lcs.server_conn_increament(&B).unwrap();
    least_is_minimal(&lcs);
    lcs.server_conn_decreament(&A).unwrap();
    least_is_minimal(&lcs);
    lcs.delete(&C).unwrap();
    least_is_minimal(&lcs);
    lcs.server_conn_increament(&A).unwrap();
    least_is_minimal(&lcs);
    lcs.delete(&A).unwrap();
    least_is_minimal(&lcs);
    lcs.delete(&B).unwrap();
    least_is_minimal(&lcs);
}

#[test]
fn increment_then_decrement_restores_membership() {
    let mut lcs = LCS::new();
    lcs.insert(&A).unwrap();
    lcs.insert(&B).unwrap();
    lcs.server_conn_increament(&B).unwrap();
    let before = lcs.get_stats().unwrap();
    lcs.server_conn_increament(&B).unwrap();
    lcs.server_conn_decreament(&B).unwrap();
    assert_eq!(lcs.get_stats().unwrap(), before);
}

#[test]
fn equal_counts_break_ties_deterministically() {
    let mut lcs = LCS::new();
    lcs.insert(&A).unwrap();
    lcs.insert(&B).unwrap();
    let first = lcs.get_least_conn_server().unwrap();
    assert_eq!(first, A);
    // Asking again without mutation answers the same backend.
    assert_eq!(lcs.get_least_conn_server().unwrap(), A);
    lcs.server_conn_increament(&first).unwrap();
    assert_eq!(lcs.get_least_conn_server().unwrap(), B);
}

#[test]
fn deregistered_backend_is_never_answered() {
    let mut lcs = LCS::new();
    lcs.insert(&A).unwrap();
    lcs.insert(&B).unwrap();
    lcs.server_conn_increament(&B).unwrap();
    // A is the unique minimum; deregistering it must change the answer.
    assert_eq!(lcs.get_least_conn_server().unwrap(), A);
    lcs.delete(&A).unwrap();
    assert_ne!(lcs.get_least_conn_server().unwrap(), A);
    assert_eq!(count_of(&lcs, &A), None);
}

#[test]
fn stats_follow_registration_order() {
    let mut lcs = LCS::new();
    lcs.insert(&C).unwrap();
    lcs.insert(&A).unwrap();
    lcs.insert(&B).unwrap();
    lcs.server_conn_increament(&A).unwrap();
    lcs.server_conn_increament(&A).unwrap();
    lcs.server_conn_increament(&B).unwrap();
    assert_eq!(lcs.get_stats().unwrap(), vec![(C, 0), (A, 2), (B, 1)]);
}

#[test]
fn assign_release_scenario_alternates_backends() {
    // Register A and B at count zero; an assignment answers A and raises
    // its count; the next answers B; releasing A makes it the unique
    // minimum again.
    let mut lcs = LCS::new();
    lcs.insert(&A).unwrap();
    lcs.insert(&B).unwrap();

    let first = lcs.get_least_conn_server().unwrap();
    assert_eq!(first, A);
    lcs.server_conn_increament(&first).unwrap();
    assert_eq!(count_of(&lcs, &A), Some(1));

    let second = lcs.get_least_conn_server().unwrap();
    assert_eq!(second, B);
    lcs.server_conn_increament(&second).unwrap();

    lcs.server_conn_decreament(&A).unwrap();
    assert_eq!(count_of(&lcs, &A), Some(0));

    assert_eq!(lcs.get_least_conn_server().unwrap(), A);
}
