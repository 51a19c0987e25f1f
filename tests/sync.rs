use kernel::mutex::Mutex;
use kernel::once_lock::{OnceLock, OnceState};

fn count_under_lock(t: u64, k: u64) -> u64 {
    let mut m = Mutex::new(0u64);
    for _ in 0..t {
        for _ in 0..k {
            let mut g = m.lock();
            *g.deref_mut() += 1;
            m.unlock(g);
        }
    }
    let g = m.lock();
    *g.deref()
}

#[test]
fn counter_under_lock_counts_every_cycle() {
    for t in [1u64, 2, 8] {
        for k in [1u64, 1000] {
            assert_eq!(count_under_lock(t, k), t * k);
        }
    }
}

#[test]
fn lock_flag_follows_the_guard() {
    let mut m = Mutex::new(String::from("a"));
    assert!(!m.locked());
    let mut g = m.lock();
    assert!(m.locked());
    assert!(m.try_lock().is_none());
    g.deref_mut().push('b');
    m.unlock(g);
    assert!(!m.locked());
    let g = m.try_lock().unwrap();
    assert_eq!(g.deref(), "ab");
}

#[test]
fn set_then_get() {
    let mut c: OnceLock<u32> = OnceLock::new();
    assert_eq!(c.get(), None);
    assert_eq!(c.set(5), Ok(()));
    assert_eq!(c.get(), Some(&5));
    assert_eq!(c.current_state(), OnceState::Filled);
}

#[test]
fn second_set_hands_the_value_back() {
    let mut c: OnceLock<String> = OnceLock::default();
    assert_eq!(c.set(String::from("first")), Ok(()));
    assert_eq!(c.set(String::from("second")), Err(String::from("second")));
    assert_eq!(c.get().map(|s| s.as_str()), Some("first"));
}

#[test]
fn racing_sets_leave_one_winner() {
    let mut c: OnceLock<u64> = OnceLock::new();
    let mut results = Vec::new();
    for v in [10u64, 20, 30, 40] {
        results.push(c.set(v));
    }
    assert_eq!(results, vec![Ok(()), Err(20), Err(30), Err(40)]);
    for _ in 0..3 {
        assert_eq!(c.get(), Some(&10));
    }
}

#[test]
fn get_while_writing_sees_nothing() {
    let mut c: OnceLock<u8> = OnceLock::new();
    assert!(c.try_claim());
    assert_eq!(c.current_state(), OnceState::Writing);
    assert_eq!(c.get(), None);
    assert!(!c.try_claim());
    assert_eq!(c.set(9), Err(9));
    assert_eq!(c.get(), None);
    c.publish(3);
    assert_eq!(c.get(), Some(&3));
}
