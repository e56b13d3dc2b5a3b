use image_tagger::engine::{DisplayAction, Engine, KeepPixels, Materializer, Mode};
use image_tagger::inflight::InFlightSet;
use image_tagger::messages::{CacheEntry, DecodeResult};

fn sources(count: usize) -> Vec<(String, Vec<String>)> {
    (0..count).map(|i| (format!("dir/{}.png", i), vec![format!("tag{}", i)])).collect()
}

fn loaded(count: usize) -> (Engine<CacheEntry>, InFlightSet) {
    let mut engine = Engine::new();
    let mut in_flight = InFlightSet::new();
    engine.load(sources(count), &mut in_flight);
    (engine, in_flight)
}

fn decoded(index: usize) -> DecodeResult {
    DecodeResult::ImageDecoded {
        index,
        width: 1,
        height: 1,
        pixels: vec![index as u8, 0, 0, 255],
        fingerprint: vec![index as u8; 8],
    }
}

fn failed(index: usize) -> DecodeResult {
    DecodeResult::DecodeError { index, message: format!("decode error: {}", index) }
}

struct Labels {
    count: usize,
}

impl Materializer for Labels {
    type Handle = String;

    fn made(&self, entry: CacheEntry) -> String {
        format!("{}x{}:{}", entry.width, entry.height, entry.pixels.len())
    }

    fn materialize(&mut self, entry: CacheEntry) -> String {
        self.count += 1;
        self.made(entry)
    }
}

#[test]
fn new_engine_is_empty_and_paused() {
    let engine: Engine<CacheEntry> = Engine::new();
    assert_eq!(engine.len(), 0);
    assert_eq!(engine.mode(), Mode::Paused);
    assert!(!engine.scan_open());
    assert!(!engine.allows_scheduling());
    assert_eq!(engine.progress(), (0, 0));
    assert_eq!(engine.furthest_viewed(), 0);
    assert_eq!(engine.current_index(), 0);
    assert!(engine.get_cached(0).is_none());
    assert!(engine.entry(0).is_none());
}

#[test]
fn load_fills_the_registry_in_order() {
    let mut engine: Engine<CacheEntry> = Engine::new();
    let mut in_flight = InFlightSet::new();
    assert!(engine.load(sources(3), &mut in_flight));
    assert_eq!(engine.len(), 3);
    for index in 0..3 {
        let entry = engine.entry(index).unwrap();
        assert_eq!(entry.index, index);
        assert_eq!(entry.path, format!("dir/{}.png", index));
        assert_eq!(entry.tags, vec![format!("tag{}", index)]);
        assert!(entry.fingerprint.is_none());
    }
    assert!(engine.entry(3).is_none());
    assert_eq!(engine.mode(), Mode::Active);
    assert!(engine.scan_open());
    assert_eq!(engine.progress(), (0, 3));
}

#[test]
fn load_of_an_empty_directory_starts_no_scan() {
    let mut engine: Engine<CacheEntry> = Engine::new();
    let mut in_flight = InFlightSet::new();
    assert!(!engine.load(Vec::new(), &mut in_flight));
    assert_eq!(engine.len(), 0);
    assert!(!engine.scan_open());
    assert_eq!(engine.mode(), Mode::Active);
    assert_eq!(engine.plan_preload(&in_flight), Vec::<usize>::new());
    assert_eq!(engine.plan_scan(&in_flight), Vec::<usize>::new());
    assert_eq!(engine.display_action(&mut in_flight), DisplayAction::Nothing);
}

#[test]
fn decoded_image_is_cached_and_its_fingerprint_written() {
    let (mut engine, _) = loaded(4);
    engine.apply_result(decoded(2), &mut KeepPixels);
    let cached = engine.get_cached(2).unwrap();
    assert_eq!((cached.width, cached.height), (1, 1));
    assert_eq!(cached.pixels, vec![2, 0, 0, 255]);
    assert_eq!(engine.entry(2).unwrap().fingerprint, Some(vec![2u8; 8]));
    assert!(engine.entry(1).unwrap().fingerprint.is_none());
    assert!(engine.get_cached(1).is_none());
    assert!(engine.error_of(2).is_none());
    assert_eq!(engine.progress(), (1, 4));
}

#[test]
fn decoded_image_is_materialized_once_by_the_factory() {
    let mut engine: Engine<String> = Engine::new();
    let mut in_flight = InFlightSet::new();
    engine.load(sources(2), &mut in_flight);
    let mut factory = Labels { count: 0 };
    engine.apply_result(decoded(1), &mut factory);
    engine.apply_result(failed(0), &mut factory);
    assert_eq!(factory.count, 1);
    assert_eq!(engine.get_cached(1), Some(&"1x1:4".to_string()));
    assert!(engine.get_cached(0).is_none());
}

#[test]
fn failure_is_recorded_and_the_cache_left_alone() {
    let (mut engine, _) = loaded(4);
    engine.apply_result(failed(3), &mut KeepPixels);
    assert!(engine.get_cached(3).is_none());
    assert_eq!(engine.error_of(3), Some(&"decode error: 3".to_string()));
    assert!(engine.entry(3).unwrap().fingerprint.is_none());
    assert_eq!(engine.progress(), (1, 4));
}

#[test]
fn failure_counts_as_handled_so_that_progress_reaches_the_whole() {
    let (mut engine, _) = loaded(3);
    engine.apply_result(failed(0), &mut KeepPixels);
    engine.apply_result(failed(1), &mut KeepPixels);
    engine.apply_result(failed(2), &mut KeepPixels);
    assert_eq!(engine.progress(), (3, 3));
}

#[test]
fn after_the_scan_every_index_is_cached_or_failed_and_never_both() {
    let (mut engine, _) = loaded(10);
    let order = [7usize, 2, 9, 0, 4, 1, 8, 3, 6, 5];
    let mut last = 0;
    for (step, &index) in order.iter().enumerate() {
        let message = if index % 3 == 0 { failed(index) } else { decoded(index) };
        engine.apply_result(message, &mut KeepPixels);
        let (handled, total) = engine.progress();
        assert!(handled >= last);
        assert_eq!(handled, step + 1);
        assert_eq!(total, 10);
        last = handled;
    }
    assert_eq!(engine.progress(), (10, 10));
    for index in 0..10 {
        let cached = engine.get_cached(index).is_some();
        let failed = engine.error_of(index).is_some();
        assert!(cached != failed);
        assert_eq!(failed, index % 3 == 0);
    }
}

#[test]
fn message_for_an_index_outside_the_registry_is_ignored() {
    let (mut engine, _) = loaded(2);
    engine.apply_result(decoded(2), &mut KeepPixels);
    engine.apply_result(failed(5), &mut KeepPixels);
    engine.apply_decoded(usize::MAX, CacheEntry { width: 0, height: 0, pixels: Vec::new() }, Vec::new());
    assert!(engine.get_cached(2).is_none());
    assert!(engine.error_of(5).is_none());
    assert_eq!(engine.progress(), (0, 2));
}

#[test]
fn failure_after_an_image_does_not_unsettle_it() {
    let (mut engine, _) = loaded(2);
    engine.apply_result(decoded(1), &mut KeepPixels);
    engine.apply_result(failed(1), &mut KeepPixels);
    assert!(engine.get_cached(1).is_some());
    assert!(engine.error_of(1).is_none());
    assert_eq!(engine.progress(), (1, 2));
}

#[test]
fn image_after_a_failure_replaces_it() {
    let (mut engine, _) = loaded(2);
    engine.apply_error(0, "open error: busy".to_string());
    assert_eq!(engine.progress(), (1, 2));
    engine.store(0, CacheEntry { width: 2, height: 2, pixels: vec![0; 16] });
    assert!(engine.get_cached(0).is_some());
    assert!(engine.error_of(0).is_none());
    assert!(engine.entry(0).unwrap().fingerprint.is_none());
    assert_eq!(engine.progress(), (1, 2));
}

#[test]
fn reload_clears_cache_failures_tracker_and_positions() {
    let (mut engine, mut in_flight) = loaded(6);
    for index in 0..4 {
        engine.apply_result(decoded(index), &mut KeepPixels);
    }
    engine.apply_result(failed(4), &mut KeepPixels);
    assert!(in_flight.try_acquire(5));
    engine.next_image();
    engine.next_image();
    engine.pause();
    assert!(engine.load(sources(3), &mut in_flight));
    for index in 0..6 {
        assert!(engine.get_cached(index).is_none());
        assert!(engine.error_of(index).is_none());
        assert!(!in_flight.contains(index));
    }
    assert_eq!(in_flight.len(), 0);
    assert_eq!(engine.len(), 3);
    assert_eq!(engine.furthest_viewed(), 0);
    assert_eq!(engine.current_index(), 0);
    assert_eq!(engine.progress(), (0, 3));
    assert_eq!(engine.mode(), Mode::Active);
}

#[test]
fn pause_keeps_what_is_cached_and_stops_preloads() {
    let (mut engine, in_flight) = loaded(10);
    engine.apply_result(decoded(1), &mut KeepPixels);
    engine.pause();
    assert_eq!(engine.mode(), Mode::Paused);
    assert!(!engine.allows_scheduling());
    assert!(engine.get_cached(1).is_some());
    assert_eq!(engine.plan_preload(&in_flight), Vec::<usize>::new());
    // A message that arrives while paused is still applied.
    engine.apply_result(decoded(2), &mut KeepPixels);
    assert!(engine.get_cached(2).is_some());
    assert_eq!(engine.progress(), (2, 10));
}

#[test]
fn resume_while_the_scan_is_open_starts_no_second_scan() {
    let (mut engine, mut in_flight) = loaded(10);
    assert!(in_flight.try_acquire(1));
    let before = engine.plan_preload(&in_flight);
    engine.pause();
    assert!(!engine.resume());
    assert_eq!(engine.mode(), Mode::Active);
    assert!(engine.scan_open());
    assert!(in_flight.contains(1));
    assert_eq!(engine.plan_preload(&in_flight), before);
    assert!(!before.contains(&1));
}

#[test]
fn resume_after_the_scan_closed_starts_one() {
    let (mut engine, _) = loaded(3);
    engine.scan_closed();
    assert!(!engine.scan_open());
    engine.pause();
    assert!(engine.resume());
    assert!(engine.scan_open());
    // A second resume finds the engine active.
    assert!(!engine.resume());
}

#[test]
fn resume_of_an_active_engine_changes_nothing() {
    let (mut engine, _) = loaded(3);
    engine.scan_closed();
    assert!(!engine.resume());
    assert!(!engine.scan_open());
    assert_eq!(engine.mode(), Mode::Active);
}

#[test]
fn resume_without_images_stays_paused() {
    let mut engine: Engine<CacheEntry> = Engine::new();
    assert!(!engine.resume());
    assert_eq!(engine.mode(), Mode::Paused);
    assert!(!engine.scan_open());
}

#[test]
fn restarted_scan_leaves_out_what_is_cached_or_in_flight() {
    let (mut engine, mut in_flight) = loaded(6);
    engine.apply_result(decoded(0), &mut KeepPixels);
    engine.apply_result(decoded(3), &mut KeepPixels);
    engine.apply_result(failed(4), &mut KeepPixels);
    assert!(in_flight.try_acquire(5));
    assert_eq!(engine.plan_scan(&in_flight), vec![1, 2, 4]);
}

#[test]
fn first_scan_names_every_index() {
    let (engine, in_flight) = loaded(4);
    assert_eq!(engine.plan_scan(&in_flight), vec![0, 1, 2, 3]);
}

#[test]
fn preload_looks_ahead_of_the_furthest_position() {
    let (mut engine, in_flight) = loaded(20);
    assert_eq!(engine.plan_preload(&in_flight), vec![1, 2, 3, 4, 5]);
    engine.note_viewed(7);
    assert_eq!(engine.plan_preload(&in_flight), vec![8, 9, 10, 11, 12]);
    engine.note_viewed(18);
    assert_eq!(engine.plan_preload(&in_flight), vec![19, 0, 1, 2, 3]);
}

#[test]
fn preload_leaves_out_what_is_cached_or_in_flight() {
    let (mut engine, mut in_flight) = loaded(20);
    engine.note_viewed(7);
    engine.apply_result(decoded(9), &mut KeepPixels);
    assert!(in_flight.try_acquire(11));
    assert_eq!(engine.plan_preload(&in_flight), vec![8, 10, 12]);
    // Planning acquires nothing.
    assert!(!in_flight.contains(8));
    assert_eq!(in_flight.len(), 1);
    // A failure does not stop a later attempt.
    engine.apply_result(failed(8), &mut KeepPixels);
    assert_eq!(engine.plan_preload(&in_flight), vec![8, 10, 12]);
}

#[test]
fn preload_is_empty_when_everything_ahead_is_ready() {
    let (mut engine, in_flight) = loaded(3);
    for index in 0..3 {
        engine.apply_result(decoded(index), &mut KeepPixels);
    }
    assert_eq!(engine.plan_preload(&in_flight), Vec::<usize>::new());
}

#[test]
fn preload_of_a_small_registry_names_each_index_once() {
    let (engine, in_flight) = loaded(2);
    assert_eq!(engine.plan_preload(&in_flight), vec![1, 0]);
    let (engine, in_flight) = loaded(1);
    assert_eq!(engine.plan_preload(&in_flight), vec![0]);
}

#[test]
fn furthest_position_never_moves_back() {
    let (mut engine, _) = loaded(5);
    engine.next_image();
    engine.next_image();
    assert_eq!((engine.current_index(), engine.furthest_viewed()), (2, 2));
    engine.previous_image();
    assert_eq!((engine.current_index(), engine.furthest_viewed()), (1, 2));
    engine.previous_image();
    engine.previous_image();
    assert_eq!((engine.current_index(), engine.furthest_viewed()), (4, 2));
    engine.next_image();
    assert_eq!((engine.current_index(), engine.furthest_viewed()), (0, 2));
    engine.note_viewed(1);
    assert_eq!(engine.furthest_viewed(), 2);
    engine.note_viewed(4);
    assert_eq!(engine.furthest_viewed(), 4);
    engine.note_viewed(5);
    assert_eq!(engine.furthest_viewed(), 4);
}

#[test]
fn navigation_wraps_in_both_directions() {
    let (mut engine, _) = loaded(3);
    engine.previous_image();
    assert_eq!(engine.current_index(), 2);
    assert_eq!(engine.furthest_viewed(), 0);
    engine.next_image();
    assert_eq!(engine.current_index(), 0);
    let (mut single, _) = loaded(1);
    single.next_image();
    single.previous_image();
    assert_eq!(single.current_index(), 0);
}

#[test]
fn navigation_of_an_empty_registry_does_nothing() {
    let mut engine: Engine<CacheEntry> = Engine::new();
    engine.next_image();
    engine.previous_image();
    assert_eq!((engine.current_index(), engine.furthest_viewed()), (0, 0));
}

#[test]
fn display_shows_what_is_cached_and_decodes_what_is_free() {
    let (mut engine, mut in_flight) = loaded(3);
    assert_eq!(engine.display_action(&mut in_flight), DisplayAction::DecodeNow);
    assert!(in_flight.contains(0));
    // Asked again while the index is held, the display waits.
    assert_eq!(engine.display_action(&mut in_flight), DisplayAction::Wait);
    engine.store(0, CacheEntry { width: 1, height: 1, pixels: vec![0; 4] });
    in_flight.release(0);
    assert_eq!(engine.display_action(&mut in_flight), DisplayAction::ShowCached);
    assert!(!in_flight.contains(0));
    engine.next_image();
    assert!(in_flight.try_acquire(1));
    assert_eq!(engine.display_action(&mut in_flight), DisplayAction::Wait);
    assert_eq!(in_flight.len(), 1);
}

#[test]
fn tags_of_an_entry_can_be_replaced() {
    let (mut engine, _) = loaded(2);
    engine.set_tags(1, vec!["a".to_string(), "b".to_string()]);
    assert_eq!(engine.entry(1).unwrap().tags, vec!["a".to_string(), "b".to_string()]);
    assert_eq!(engine.entry(0).unwrap().tags, vec!["tag0".to_string()]);
    engine.set_tags(2, vec!["lost".to_string()]);
    assert_eq!(engine.len(), 2);
}

#[test]
fn keep_pixels_hands_the_entry_on() {
    let entry = CacheEntry { width: 3, height: 1, pixels: vec![1; 12] };
    let kept = KeepPixels.materialize(entry.clone());
    assert_eq!((kept.width, kept.height, kept.pixels), (3, 1, vec![1; 12]));
}
