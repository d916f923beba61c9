use logdrain::miner::Miner;
use logdrain::persistence::{MemoryPersistence, Persistence};

#[test]
fn memory_round_trip() {
    let mut p = MemoryPersistence::new();
    assert_eq!(p.load().unwrap(), None);
    p.save(b"hello").unwrap();
    assert_eq!(p.load().unwrap(), Some(b"hello".to_vec()));
    p.save(b"world").unwrap();
    assert_eq!(p.load().unwrap(), Some(b"world".to_vec()));
}

#[test]
fn miner_save_load_round_trips_via_backend() {
    let mut m = Miner::builder().build().unwrap();
    m.add("user 42 logged in");
    m.add("user 99 logged in");
    let mut store = MemoryPersistence::new();
    m.save_state(&mut store).unwrap();

    let mut m2 = Miner::builder().build().unwrap();
    assert!(m2.load_state(&store).unwrap()); // true: snapshot present
    assert_eq!(m2.len(), m.len());
    let id = m2.match_only("user 7 logged in").unwrap();
    assert_eq!(m2.cluster(id).unwrap().template(), "user <*> logged in");
}

#[test]
fn load_state_from_empty_backend_is_false() {
    let mut m = Miner::builder().build().unwrap();
    assert!(!m.load_state(&MemoryPersistence::new()).unwrap());
}

#[test]
fn load_state_of_garbage_is_an_error_and_keeps_state() {
    let mut m = Miner::builder().build().unwrap();
    m.add("keep me around");
    let mut store = MemoryPersistence::new();
    store.save(b"garbage!").unwrap();
    assert!(m.load_state(&store).is_err());
    assert_eq!(m.len(), 1);
}
