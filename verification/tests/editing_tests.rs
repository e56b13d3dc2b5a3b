use image_tagger::engine::Engine;
use image_tagger::inflight::InFlightSet;
use image_tagger::messages::CacheEntry;

fn list(tags: &[&str]) -> Vec<String> {
    tags.iter().map(|t| t.to_string()).collect()
}

fn s(text: &str) -> String {
    text.to_string()
}

fn dataset() -> Engine<CacheEntry> {
    let mut engine = Engine::new();
    let mut in_flight = InFlightSet::new();
    engine.load(
        vec![
            (s("a.png"), list(&["cat", "solo", "cat"])),
            (s("b.png"), list(&["dog", "solo"])),
            (s("c.png"), Vec::new()),
            (s("d.png"), list(&["style", "cat"])),
        ],
        &mut in_flight,
    );
    engine
}

fn tags_of(engine: &Engine<CacheEntry>, index: usize) -> Vec<String> {
    engine.tags(index).unwrap().clone()
}

#[test]
fn tags_are_read_by_index() {
    let engine = dataset();
    assert_eq!(tags_of(&engine, 1), list(&["dog", "solo"]));
    assert!(engine.tags(4).is_none());
    assert_eq!(engine.modified_indices(), Vec::<usize>::new());
}

#[test]
fn tag_is_added_to_the_image_on_display() {
    let mut engine = dataset();
    engine.next_image();
    engine.add_tag_to_current(&s("outdoors"), false);
    assert_eq!(tags_of(&engine, 1), list(&["dog", "solo", "outdoors"]));
    engine.add_tag_to_current(&s("solo"), true);
    assert_eq!(tags_of(&engine, 1), list(&["solo", "dog", "outdoors"]));
    assert_eq!(tags_of(&engine, 0), list(&["cat", "solo", "cat"]));
    assert_eq!(engine.modified_indices(), vec![1]);
    assert!(engine.is_modified(1));
    assert!(!engine.is_modified(0));
}

#[test]
fn tag_is_removed_from_the_image_on_display() {
    let mut engine = dataset();
    engine.remove_tag_from_current(&s("cat"));
    assert_eq!(tags_of(&engine, 0), list(&["solo"]));
    assert_eq!(tags_of(&engine, 3), list(&["style", "cat"]));
    assert_eq!(engine.modified_indices(), vec![0]);
}

#[test]
fn duplicates_are_dropped_from_the_image_on_display() {
    let mut engine = dataset();
    engine.remove_duplicates_for_current();
    assert_eq!(tags_of(&engine, 0), list(&["cat", "solo"]));
    assert_eq!(engine.modified_indices(), vec![0]);
}

#[test]
fn suggested_tag_is_added_once() {
    let mut engine = dataset();
    assert!(engine.add_unique_to_current(&s("smile")));
    assert!(!engine.add_unique_to_current(&s("smile")));
    assert!(!engine.add_unique_to_current(&s("cat")));
    assert_eq!(tags_of(&engine, 0), list(&["cat", "solo", "cat", "smile"]));
    let mut untouched = dataset();
    assert!(!untouched.add_unique_to_current(&s("solo")));
    assert_eq!(untouched.modified_indices(), Vec::<usize>::new());
}

#[test]
fn editing_without_images_does_nothing() {
    let mut engine: Engine<CacheEntry> = Engine::new();
    engine.add_tag_to_current(&s("x"), false);
    engine.remove_tag_from_current(&s("x"));
    engine.remove_duplicates_for_current();
    assert!(!engine.add_unique_to_current(&s("x")));
    engine.apply_activation_tag(&s("x"));
    engine.remove_duplicates_for_all();
    assert_eq!(engine.remove_tag_from_all(&s("x")), 0);
    assert_eq!(engine.len(), 0);
    assert_eq!(engine.modified_indices(), Vec::<usize>::new());
    assert_eq!(engine.every_tag(), Vec::<String>::new());
}

#[test]
fn activation_tag_reaches_every_image_that_lacks_it() {
    let mut engine = dataset();
    engine.apply_activation_tag(&s("style"));
    assert_eq!(tags_of(&engine, 0), list(&["style", "cat", "solo", "cat"]));
    assert_eq!(tags_of(&engine, 1), list(&["style", "dog", "solo"]));
    assert_eq!(tags_of(&engine, 2), list(&["style"]));
    assert_eq!(tags_of(&engine, 3), list(&["style", "cat"]));
    assert_eq!(engine.modified_indices(), vec![0, 1, 2]);
}

#[test]
fn empty_activation_tag_changes_nothing() {
    let mut engine = dataset();
    engine.apply_activation_tag(&s(""));
    assert_eq!(tags_of(&engine, 2), Vec::<String>::new());
    assert_eq!(engine.modified_indices(), Vec::<usize>::new());
}

#[test]
fn tag_is_removed_from_every_image_that_holds_it() {
    let mut engine = dataset();
    assert_eq!(engine.remove_tag_from_all(&s("cat")), 2);
    assert_eq!(tags_of(&engine, 0), list(&["solo"]));
    assert_eq!(tags_of(&engine, 1), list(&["dog", "solo"]));
    assert_eq!(tags_of(&engine, 3), list(&["style"]));
    assert_eq!(engine.modified_indices(), vec![0, 3]);
    assert_eq!(engine.remove_tag_from_all(&s("cat")), 0);
    assert_eq!(engine.remove_tag_from_all(&s("solo")), 2);
    assert_eq!(engine.modified_indices(), vec![0, 1, 3]);
}

#[test]
fn duplicates_are_dropped_everywhere_and_every_image_counts_as_modified() {
    let mut engine = dataset();
    engine.remove_duplicates_for_all();
    assert_eq!(tags_of(&engine, 0), list(&["cat", "solo"]));
    assert_eq!(tags_of(&engine, 1), list(&["dog", "solo"]));
    assert_eq!(engine.modified_indices(), vec![0, 1, 2, 3]);
}

#[test]
fn editing_touches_neither_cache_nor_positions() {
    let mut engine = dataset();
    engine.store(2, CacheEntry { width: 1, height: 1, pixels: vec![0; 4] });
    engine.next_image();
    engine.next_image();
    engine.apply_activation_tag(&s("style"));
    engine.remove_duplicates_for_all();
    assert!(engine.get_cached(2).is_some());
    assert_eq!((engine.current_index(), engine.furthest_viewed()), (2, 2));
    assert_eq!(engine.progress(), (1, 4));
    assert_eq!(engine.entry(1).unwrap().path, "b.png");
    assert_eq!(engine.entry(1).unwrap().index, 1);
}

#[test]
fn loading_forgets_what_was_modified() {
    let mut engine = dataset();
    engine.remove_duplicates_for_all();
    let mut in_flight = InFlightSet::new();
    engine.load(vec![(s("x.png"), list(&["a"]))], &mut in_flight);
    assert_eq!(engine.modified_indices(), Vec::<usize>::new());
    assert!(!engine.is_modified(0));
}

#[test]
fn occurrences_are_counted_over_all_images() {
    let engine = dataset();
    assert_eq!(engine.every_tag(), list(&["cat", "solo", "cat", "dog", "solo", "style", "cat"]));
    assert_eq!(engine.count_tag_occurrences(&s("cat")), 3);
    assert_eq!(engine.count_tag_occurrences(&s("solo")), 2);
    assert_eq!(engine.count_tag_occurrences(&s("bird")), 0);
}

#[test]
fn frequencies_over_all_images_are_sorted_as_asked() {
    let engine = dataset();
    let rows = |by_frequency, ascending| -> Vec<(String, usize)> {
        engine.get_tag_frequencies(by_frequency, ascending)
    };
    let named = |rows: &[(&str, usize)]| -> Vec<(String, usize)> {
        rows.iter().map(|(n, c)| (n.to_string(), *c)).collect()
    };
    assert_eq!(rows(true, false), named(&[("cat", 3), ("solo", 2), ("dog", 1), ("style", 1)]));
    assert_eq!(rows(true, true), named(&[("dog", 1), ("style", 1), ("solo", 2), ("cat", 3)]));
    assert_eq!(rows(false, true), named(&[("cat", 3), ("dog", 1), ("solo", 2), ("style", 1)]));
    assert_eq!(rows(false, false), named(&[("style", 1), ("solo", 2), ("dog", 1), ("cat", 3)]));
}
