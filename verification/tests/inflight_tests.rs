use image_tagger::inflight::InFlightSet;
use rayon::iter::{IntoParallelIterator, ParallelIterator};
use std::sync::Mutex;

#[test]
fn first_acquire_succeeds_and_second_fails() {
    let mut tracker = InFlightSet::new();
    assert!(tracker.try_acquire(3));
    assert!(!tracker.try_acquire(3));
    assert!(tracker.contains(3));
    assert_eq!(tracker.len(), 1);
}

#[test]
fn release_frees_the_index() {
    let mut tracker = InFlightSet::new();
    assert!(tracker.try_acquire(3));
    tracker.release(3);
    assert!(!tracker.contains(3));
    assert!(tracker.try_acquire(3));
}

#[test]
fn release_of_a_free_index_changes_nothing() {
    let mut tracker = InFlightSet::new();
    assert!(tracker.try_acquire(1));
    tracker.release(2);
    assert!(tracker.contains(1));
    assert_eq!(tracker.len(), 1);
}

#[test]
fn indices_are_held_independently() {
    let mut tracker = InFlightSet::new();
    assert!(tracker.try_acquire(0));
    assert!(tracker.try_acquire(1));
    assert!(!tracker.try_acquire(0));
    tracker.release(0);
    assert!(tracker.contains(1));
    assert!(!tracker.contains(0));
}

#[test]
fn clear_releases_everything() {
    let mut tracker = InFlightSet::new();
    for index in 0..20 {
        assert!(tracker.try_acquire(index));
    }
    assert_eq!(tracker.len(), 20);
    tracker.clear();
    assert_eq!(tracker.len(), 0);
    assert!(tracker.try_acquire(7));
}

#[test]
fn of_many_workers_contending_for_one_index_exactly_one_acquires_it() {
    let tracker = Mutex::new(InFlightSet::new());
    let acquired: usize = (0..64usize)
        .into_par_iter()
        .map(|_| if tracker.lock().unwrap().try_acquire(11) { 1 } else { 0 })
        .sum();
    assert_eq!(acquired, 1);
    assert!(tracker.lock().unwrap().contains(11));
}

#[test]
fn workers_contending_for_several_indices_acquire_each_once() {
    let tracker = Mutex::new(InFlightSet::new());
    let acquired: usize = (0..200usize)
        .into_par_iter()
        .map(|job| if tracker.lock().unwrap().try_acquire(job % 10) { 1 } else { 0 })
        .sum();
    assert_eq!(acquired, 10);
    assert_eq!(tracker.lock().unwrap().len(), 10);
}
