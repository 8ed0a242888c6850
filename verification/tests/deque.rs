use std::collections::VecDeque;

use push_swap::stack_deque::StackDeque;

/// Drives a StackDeque and a reference VecDeque through the same operation
/// sequence and checks that the logical contents agree after every step.
fn check_against_reference(capacity: usize, script: &[(u8, i32)]) {
    let mut d: StackDeque<i32> = StackDeque::new(capacity);
    let mut r: VecDeque<i32> = VecDeque::new();
    for &(kind, val) in script {
        match kind {
            0 => {
                if r.len() < capacity {
                    d.push_back(val);
                    r.push_back(val);
                }
            }
            1 => {
                if r.len() < capacity {
                    d.push_front(val);
                    r.push_front(val);
                }
            }
            2 => {
                if !r.is_empty() {
                    d.pop_back();
                    r.pop_back();
                }
            }
            _ => {
                if !r.is_empty() {
                    d.pop_front();
                    r.pop_front();
                }
            }
        }
        assert_eq!(d.len(), r.len());
        assert!(d.len() <= capacity);
        for i in 0..r.len() {
            assert_eq!(d.index(i), r[i]);
        }
        if !r.is_empty() {
            assert_eq!(d.front(), *r.front().unwrap());
            assert_eq!(d.back(), *r.back().unwrap());
        }
    }
}

#[test]
fn empty_deque() {
    let d: StackDeque<i32> = StackDeque::new(4);
    assert_eq!(d.len(), 0);
    assert!(d.is_empty());
    assert_eq!(d.capacity(), 4);
}

#[test]
fn zero_capacity() {
    let d: StackDeque<i32> = StackDeque::new(0);
    assert_eq!(d.len(), 0);
    assert!(d.is_empty());
}

#[test]
fn push_pop_both_ends() {
    let mut d: StackDeque<i32> = StackDeque::new(3);
    d.push_back(1);
    d.push_front(2);
    d.push_back(3);
    assert_eq!(d.len(), 3);
    assert_eq!(d.front(), 2);
    assert_eq!(d.back(), 3);
    assert_eq!(d.index(0), 2);
    assert_eq!(d.index(1), 1);
    assert_eq!(d.index(2), 3);
    d.pop_front();
    assert_eq!(d.front(), 1);
    d.pop_back();
    assert_eq!(d.len(), 1);
    assert_eq!(d.front(), 1);
    assert_eq!(d.back(), 1);
}

#[test]
fn set_overwrites_in_place() {
    let mut d: StackDeque<i32> = StackDeque::new(2);
    d.push_back(5);
    d.push_back(7);
    d.set(0, 9);
    assert_eq!(d.index(0), 9);
    assert_eq!(d.index(1), 7);
}

#[test]
fn duplicate_is_equal_and_independent() {
    let mut d: StackDeque<i32> = StackDeque::new(3);
    d.push_back(1);
    d.push_back(2);
    let mut c = d.duplicate();
    assert!(c.contents_eq(&d));
    c.push_back(3);
    assert!(!c.contents_eq(&d));
    assert_eq!(d.len(), 2);
}

/// Forces recentring at the back edge: rotate front-to-back through the
/// whole 3x window many times at full capacity.
#[test]
fn recentring_under_rotation() {
    let cap = 5;
    let mut d: StackDeque<i32> = StackDeque::new(cap);
    for v in 0..cap as i32 {
        d.push_back(v);
    }
    let mut r: VecDeque<i32> = (0..cap as i32).collect();
    for _ in 0..100 {
        let v = d.front();
        d.pop_front();
        d.push_back(v);
        let w = r.pop_front().unwrap();
        r.push_back(w);
        assert_eq!(d.len(), cap);
        for i in 0..cap {
            assert_eq!(d.index(i), r[i]);
        }
    }
    for _ in 0..100 {
        let v = d.back();
        d.pop_back();
        d.push_front(v);
        let w = r.pop_back().unwrap();
        r.push_front(w);
        for i in 0..cap {
            assert_eq!(d.index(i), r[i]);
        }
    }
}

/// A mixed pseudo-random script, deterministic via a small LCG.
#[test]
fn random_script_matches_reference() {
    let mut seed: u64 = 0x2545F4914F6CDD1D;
    let mut script: Vec<(u8, i32)> = Vec::new();
    for i in 0..2000 {
        seed = seed.wrapping_mul(6364136223846793005).wrapping_add(1442695040888963407);
        let kind = (seed >> 33) as u8 % 4;
        script.push((kind, i as i32));
    }
    check_against_reference(7, &script);
    check_against_reference(1, &script);
    check_against_reference(13, &script);
}
