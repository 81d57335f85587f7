use async_web_server::pool::{FlightPool, PoolStep, TlsPool};

#[test]
fn pool_terminates_only_when_both_levels_drain() {
    let mut p = FlightPool::new();
    assert!(!p.is_terminated());
    p.on_upstream_item();
    p.on_upstream_item();
    p.on_upstream_end();
    // upstream exhausted, but two decodes still in flight
    assert!(!p.is_terminated());
    assert_eq!(p.on_work_done(true), PoolStep::Yield);
    assert!(!p.is_terminated());
    assert_eq!(p.on_work_done(false), PoolStep::Discard);
    assert!(p.is_terminated());
}

#[test]
fn failed_work_discards_only_its_own_connection() {
    let mut p = FlightPool::new();
    p.on_upstream_item();
    p.on_upstream_item();
    assert_eq!(p.on_work_done(false), PoolStep::Discard);
    // the sequence is not over: the other connection is still served
    assert!(!p.is_terminated());
    assert_eq!(p.on_work_done(true), PoolStep::Yield);
}

#[test]
fn completions_drain_in_ready_order_without_blocking() {
    // connection k sends its request only after connection k-1 was fully
    // read: admissions happen up front, completions arrive one at a time in
    // whatever order readiness dictates, and each is consumed at once.
    let n = 5;
    let mut p = FlightPool::new();
    for _ in 0..n {
        p.on_upstream_item();
    }
    p.on_upstream_end();
    let mut served = 0;
    for k in (0..n).rev() {
        // connection k becomes ready last-admitted-first; nothing waits on
        // the others
        assert_eq!(p.on_work_done(true), PoolStep::Yield);
        served += 1;
        assert_eq!(p.is_terminated(), k == 0);
    }
    assert_eq!(served, n);
}

#[test]
fn tls_pool_tracks_both_handshake_stages() {
    let mut p = TlsPool::new();
    p.on_upstream_item();
    p.on_upstream_item();
    p.on_upstream_end();
    assert!(!p.is_terminated());
    // one Client Hello arrives and moves to the handshake stage
    assert_eq!(p.on_hello_done(true), PoolStep::Yield);
    assert!(!p.is_terminated());
    // the other start fails and is dropped
    assert_eq!(p.on_hello_done(false), PoolStep::Discard);
    assert!(!p.is_terminated());
    // the remaining handshake completes
    assert_eq!(p.on_accept_done(true), PoolStep::Yield);
    assert!(p.is_terminated());
}

#[test]
fn tls_pool_never_ends_with_work_in_either_stage() {
    let mut p = TlsPool::new();
    p.on_upstream_item();
    assert_eq!(p.on_hello_done(true), PoolStep::Yield);
    p.on_upstream_end();
    assert!(!p.is_terminated());
    assert_eq!(p.on_accept_done(false), PoolStep::Discard);
    assert!(p.is_terminated());
}
