use flintnsteel::{Arena, ArenaPool};

#[test]
fn pool_serves_its_size() {
    let mut pool = ArenaPool::new(2).unwrap();
    assert_eq!(pool.len(), 2);
    let first = pool.get();
    assert!(first.is_some());
    let second = pool.get();
    assert!(second.is_some());
    assert!(pool.get().is_none());
}

#[test]
fn pool_reclaims() {
    let mut pool = ArenaPool::new(1).unwrap();
    let mut guard = pool.get().unwrap();
    let _ = guard.alloc_str_copied("Imagine waiting for Mutex lock to acquire").unwrap();
    assert!(guard.size() > 0);
    guard.reclaim(&mut pool).unwrap();
    let mut again = pool.get().unwrap();
    assert!(again.size() > 0);
    let str = again.alloc_str_copied("Hello!").unwrap();
    assert_eq!(&*str, "Hello!");
}

#[test]
fn pool_get_or_insert() {
    let mut pool = ArenaPool::new(0).unwrap();
    assert!(pool.get().is_none());
    let guard = pool.get_or_insert();
    guard.reclaim(&mut pool).unwrap();
    assert!(pool.get().is_some());
}

#[test]
fn pool_insert() {
    let mut pool = ArenaPool::default();
    assert!(pool.get().is_none());
    pool.insert(Arena::new()).unwrap();
    assert!(pool.get().is_some());
}

#[test]
fn pool_gives_the_last_inserted_first_and_reset() {
    let mut pool = ArenaPool::new(1).unwrap();
    let mut arena = Arena::new();
    let _ = arena.alloc_slice_copied(&[1u8; 400]).unwrap();
    let _ = arena.alloc_slice_copied(&[1u8; 4000]).unwrap();
    let before = arena.size();
    pool.insert(arena).unwrap();
    let got = pool.get().unwrap();
    assert!(got.size() > 0);
    assert!(got.size() < before);
    assert_eq!(got.count(), 1);
    assert_eq!(pool.get().unwrap().size(), 0);
}

#[test]
fn pool_too_large() {
    assert!(ArenaPool::new(usize::MAX).is_err());
}
