//! Tests of the pluggable backends: the sled adapter against a real sled
//! database, and the rayon-backed thread pool.

use kvs::{KvsEngine, SledKvsEngine, KvsError, ThreadPool, RayonThreadPool,
    sled_value_outcome, sled_removal_outcome};

#[test]
fn sled_outcomes_decide_from_prior_values() {
    assert_eq!(sled_removal_outcome(None), Err(KvsError::KeyNotFound));
    assert_eq!(sled_removal_outcome(Some(vec![1u8])), Ok(()));
    assert_eq!(sled_value_outcome(None), Ok(None));
    assert_eq!(sled_value_outcome(Some(b"hi".to_vec())), Ok(Some("hi".to_owned())));
    assert!(matches!(
        sled_value_outcome(Some(vec![0xffu8, 0xfe])),
        Err(KvsError::Utf8(_))
    ));
}

#[test]
fn sled_engine_round_trips() {
    let dir = tempfile::TempDir::new().unwrap();
    let db = sled::open(dir.path()).unwrap();
    let mut engine = SledKvsEngine::new(db);
    engine.set("k1".to_owned(), "v1".to_owned()).unwrap();
    assert_eq!(engine.get("k1".to_owned()).unwrap(), Some("v1".to_owned()));
    assert_eq!(engine.get("k2".to_owned()).unwrap(), None);
    engine.set("k1".to_owned(), "v2".to_owned()).unwrap();
    assert_eq!(engine.get("k1".to_owned()).unwrap(), Some("v2".to_owned()));
    engine.remove("k1".to_owned()).unwrap();
    assert_eq!(engine.get("k1".to_owned()).unwrap(), None);
    assert_eq!(engine.remove("k1".to_owned()), Err(KvsError::KeyNotFound));
}

#[test]
fn sled_engine_persists_across_reopen() {
    let dir = tempfile::TempDir::new().unwrap();
    {
        let db = sled::open(dir.path()).unwrap();
        let mut engine = SledKvsEngine::new(db);
        engine.set("stay".to_owned(), "here".to_owned()).unwrap();
    }
    let db = sled::open(dir.path()).unwrap();
    let mut engine = SledKvsEngine::new(db);
    assert_eq!(engine.get("stay".to_owned()).unwrap(), Some("here".to_owned()));
}

#[test]
fn rayon_pool_runs_jobs() {
    let pool = RayonThreadPool::new(4).unwrap();
    let (tx, rx) = std::sync::mpsc::channel::<u32>();
    for i in 0..8u32 {
        let tx = tx.clone();
        pool.spawn(move || {
            tx.send(i).unwrap();
        });
    }
    drop(tx);
    let mut got: Vec<u32> = rx.iter().collect();
    got.sort();
    assert_eq!(got, (0..8u32).collect::<Vec<u32>>());
}
