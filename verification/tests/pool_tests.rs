use kvs_server::pool::{default_worker_count, PoolState};
use kvs_server::server::KvsServer;
use kvs_server::store::{KvsEngine, MemStore};

#[test]
fn single_worker_serves_two_jobs_in_order() {
    let mut pool: PoolState<u64> = PoolState::new(1);
    pool.submit(7);
    pool.submit(8);
    // Only one worker: the first job starts, the second must wait.
    assert_eq!(pool.try_start(), Some(7));
    assert_eq!(pool.try_start(), None);
    // The first job ends badly; its worker still comes back and the
    // second job runs.
    pool.finish(true);
    assert_eq!(pool.try_start(), Some(8));
    assert_eq!(pool.try_start(), None);
    pool.finish(false);
}

#[test]
fn running_jobs_never_exceed_worker_count() {
    let mut pool: PoolState<u64> = PoolState::new(2);
    for job in 0..5u64 {
        pool.submit(job);
    }
    assert_eq!(pool.try_start(), Some(0));
    assert_eq!(pool.try_start(), Some(1));
    // Both workers busy: nothing more starts until one finishes.
    assert_eq!(pool.try_start(), None);
    pool.finish(false);
    assert_eq!(pool.try_start(), Some(2));
    assert_eq!(pool.try_start(), None);
}

#[test]
fn default_worker_count_is_positive() {
    assert!(default_worker_count() >= 1);
}

#[test]
fn server_hands_back_its_engine() {
    let mut store = MemStore::new();
    assert_eq!(store.set("a".to_string(), "1".to_string()), Ok(()));
    let server = KvsServer::new(store);
    let mut engine = server.into_engine();
    assert_eq!(engine.get("a".to_string()), Ok(Some("1".to_string())));
}
