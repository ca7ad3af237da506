use probe_map::map::{ErrorKind, HashMap};

// Primary slots for capacity 5: "a" -> 0, "b" -> 1, "c" -> 2, "d" -> 3,
// "e" -> 4, "f" -> 0 (it collides with "a").
//
// A deliberate design limitation of this map: lookup and the duplicate
// check inspect only the key's primary slot and
// never walk the probe chain that insert creates, so a key relocated by
// probing is unreachable by lookup and invisible to duplicate detection.
// The tests below that mention "primary slot only" pin down exactly that
// behaviour rather than the probing-aware behaviour one might expect.

fn dashes() -> String {
    format!("{}\n", "-".repeat(45))
}

#[test]
fn empty_map_insert_fails_full() {
    let mut h = HashMap::<&str, &str>::empty();
    assert_eq!(h.insert("a", "va"), Err(ErrorKind::Full));
    assert_eq!(h.len(), 0);
    assert_eq!(h.capacity(), 0);
}

#[test]
fn with_capacity_zero_behaves_like_empty() {
    let mut h = HashMap::<&str, &str>::with_capacity(0);
    assert_eq!(h.insert("a", "va"), Err(ErrorKind::Full));
    assert_eq!(h.capacity(), 0);
}

#[test]
fn insert_when_full_fails_regardless_of_key() {
    let mut h = HashMap::<&str, &str>::with_capacity(1);
    assert_eq!(h.insert("a", "va"), Ok(()));
    // Any key at all is refused once count == capacity, even a duplicate:
    // the capacity check runs before the duplicate check.
    assert_eq!(h.insert("b", "vb"), Err(ErrorKind::Full));
    assert_eq!(h.insert("a", "again"), Err(ErrorKind::Full));
    assert_eq!(h.len(), 1);
}

#[test]
fn duplicate_key_at_primary_fails() {
    let mut h = HashMap::<&str, &str>::with_capacity(2);
    assert_eq!(h.insert("a", "va"), Ok(()));
    assert_eq!(h.insert("a", "again"), Err(ErrorKind::DuplicateKey));
    assert_eq!(h.len(), 1);
}

#[test]
fn duplicate_relocated_by_probing_is_not_detected() {
    let mut h = HashMap::<&str, &str>::with_capacity(5);
    assert_eq!(h.insert("a", "va"), Ok(()));
    // "f" shares primary slot 0 with "a" and is relocated to slot 1.
    assert_eq!(h.insert("f", "vf"), Ok(()));
    // Primary slot only: slot 0 holds "a", not "f", so the duplicate check
    // misses the resident "f" and a second copy lands in slot 2.
    assert_eq!(h.insert("f", "vf2"), Ok(()));
    assert_eq!(h.len(), 3);
}

#[test]
fn lookup_on_zero_capacity_map_returns_nothing() {
    // Lookup never fails: with no slots there is nothing to find.
    let h = HashMap::<&str, &str>::empty();
    assert_eq!(h.get("a"), None);
    let h = HashMap::<&str, &str>::with_capacity(0);
    assert_eq!(h.get("a"), None);
}

#[test]
fn delete_on_zero_capacity_map_is_a_noop() {
    // Delete never fails: with no slots it silently does nothing.
    let mut h = HashMap::<&str, &str>::empty();
    h.delete("a");
    assert_eq!(h.len(), 0);
    assert!(h.is_well_formed());
}

#[test]
fn does_key_exists_on_zero_capacity_map() {
    let h = HashMap::<&str, &str>::with_capacity(0);
    assert!(!h.does_key_exists(&"a"));
}

#[test]
fn lookup_finds_value_at_primary_slot() {
    let mut h = HashMap::<&str, &str>::with_capacity(5);
    assert_eq!(h.insert("a", "va"), Ok(()));
    assert_eq!(h.get("a"), Some(&"va"));
}

#[test]
fn lookup_on_empty_primary_slot_returns_nothing() {
    let mut h = HashMap::<&str, &str>::with_capacity(5);
    assert_eq!(h.insert("a", "va"), Ok(()));
    // "b" hashes to slot 1, which is empty.
    assert_eq!(h.get("b"), None);
}

#[test]
fn lookup_does_not_compare_keys() {
    let mut h = HashMap::<&str, &str>::with_capacity(5);
    assert_eq!(h.insert("a", "va"), Ok(()));
    // Primary slot only: "f" also hashes to slot 0, and lookup hands back
    // whatever value sits there without checking the key.
    assert_eq!(h.get("f"), Some(&"va"));
}

#[test]
fn lookup_does_not_follow_probe_chain() {
    let mut h = HashMap::<&str, &str>::with_capacity(5);
    assert_eq!(h.insert("a", "va"), Ok(()));
    assert_eq!(h.insert("f", "vf"), Ok(()));
    // "f" really lives in slot 1, but lookup only sees its primary slot 0
    // and returns "a"'s value: the relocated key is unreachable.
    assert_eq!(h.get("f"), Some(&"va"));
}

#[test]
fn does_key_exists_checks_primary_slot_only() {
    let mut h = HashMap::<&str, &str>::with_capacity(5);
    assert_eq!(h.insert("a", "va"), Ok(()));
    assert!(h.does_key_exists(&"a"));
    assert!(!h.does_key_exists(&"b"));
    // "ba" also hashes to slot 0; it differs from the occupant "a" in
    // length alone, which the key comparison must notice.
    assert!(!h.does_key_exists(&"ba"));
    assert_eq!(h.insert("f", "vf"), Ok(()));
    // "f" is resident (in slot 1) yet invisible: its primary slot holds "a".
    assert!(!h.does_key_exists(&"f"));
}

#[test]
fn delete_occupied_slot_decrements_count() {
    let mut h = HashMap::<&str, &str>::with_capacity(5);
    assert_eq!(h.insert("a", "va"), Ok(()));
    assert_eq!(h.insert("b", "vb"), Ok(()));
    h.delete("a");
    assert_eq!(h.len(), 1);
    assert_eq!(h.get("a"), None);
}

#[test]
fn delete_empty_slot_is_a_noop() {
    let mut h = HashMap::<&str, &str>::with_capacity(5);
    assert_eq!(h.insert("a", "va"), Ok(()));
    h.delete("b");
    assert_eq!(h.len(), 1);
    assert_eq!(h.get("a"), Some(&"va"));
}

#[test]
fn delete_does_not_compare_keys() {
    let mut h = HashMap::<&str, &str>::with_capacity(5);
    assert_eq!(h.insert("a", "va"), Ok(()));
    // Primary slot only: deleting "f" clears slot 0 even though it holds "a".
    h.delete("f");
    assert_eq!(h.len(), 0);
    assert_eq!(h.get("a"), None);
}

#[test]
fn distinct_primary_slots_all_fit() {
    // Five keys with pairwise distinct primary slots fill the map exactly.
    let mut h = HashMap::<&str, &str>::with_capacity(5);
    for (i, k) in ["a", "b", "c", "d", "e"].into_iter().enumerate() {
        assert_eq!(h.insert(k, "v"), Ok(()));
        assert_eq!(h.len(), i + 1);
    }
    assert_eq!(h.len(), 5);
}

#[test]
fn insert_probes_to_next_free_slot() {
    let mut h = HashMap::<&str, &str>::with_capacity(5);
    assert_eq!(h.insert("a", "va"), Ok(()));
    assert_eq!(h.insert("f", "vf"), Ok(()));
    // "f" collided at slot 0 and was placed in the next free slot, 1.
    let expected = format!("{}a -- va\nf -- vf\n...\n...\n...\n{}", dashes(), dashes());
    assert_eq!(h.display(), expected);
}

#[test]
fn probe_wraps_around_the_end() {
    let mut h = HashMap::<&str, &str>::with_capacity(5);
    assert_eq!(h.insert("e", "ve"), Ok(()));  // slot 4
    assert_eq!(h.insert("j", "vj"), Ok(()));  // also hashes to 4; wraps to 0
    let expected = format!("{}j -- vj\n...\n...\n...\ne -- ve\n{}", dashes(), dashes());
    assert_eq!(h.display(), expected);
}

#[test]
fn end_to_end_scenario() {
    let mut h = HashMap::<&str, &str>::with_capacity(5);
    assert_eq!(h.insert("a", "a"), Ok(()));
    assert_eq!(h.insert("b", "b"), Ok(()));
    assert_eq!(h.insert("c", "c"), Ok(()));
    assert_eq!(h.insert("d", "d"), Ok(()));
    assert_eq!(h.insert("e", "e"), Ok(()));
    assert_eq!(h.len(), 5);
    assert_eq!(h.insert("x", "x"), Err(ErrorKind::Full));
    let expected = format!(
        "{}a -- a\nb -- b\nc -- c\nd -- d\ne -- e\n{}",
        dashes(),
        dashes()
    );
    assert_eq!(h.display(), expected);

    h.delete("e");
    assert_eq!(h.len(), 4);
    assert_eq!(h.get("e"), None);
    let expected = format!(
        "{}a -- a\nb -- b\nc -- c\nd -- d\n...\n{}",
        dashes(),
        dashes()
    );
    assert_eq!(h.display(), expected);

    // "f" collides at slot 0 and probes forward into the freed slot 4.
    assert_eq!(h.insert("f", "f"), Ok(()));
    assert_eq!(h.len(), 5);
    let expected = format!(
        "{}a -- a\nb -- b\nc -- c\nd -- d\nf -- f\n{}",
        dashes(),
        dashes()
    );
    assert_eq!(h.display(), expected);
}

#[test]
fn display_never_mutates() {
    let mut h = HashMap::<&str, &str>::with_capacity(3);
    assert_eq!(h.insert("a", "va"), Ok(()));
    let first = h.display();
    let second = h.display();
    assert_eq!(first, second);
    assert_eq!(h.len(), 1);
    assert_eq!(h.get("a"), Some(&"va"));
    assert!(h.is_well_formed());
}

#[test]
fn display_of_empty_map_is_just_delimiters() {
    let h = HashMap::<&str, &str>::empty();
    assert_eq!(h.display(), format!("{}{}", dashes(), dashes()));
}

#[test]
fn insert_into_places_pair_without_counting() {
    let mut h = HashMap::<&str, &str>::with_capacity(2);
    h.insert_into(1, "k", "v");
    assert_eq!(h.len(), 0);
    let expected = format!("{}...\nk -- v\n{}", dashes(), dashes());
    assert_eq!(h.display(), expected);
}

#[test]
fn string_keys_and_values_work() {
    let mut h = HashMap::<String, String>::with_capacity(3);
    assert_eq!(h.insert(String::from("a"), String::from("va")), Ok(()));
    assert_eq!(
        h.insert(String::from("a"), String::from("dup")),
        Err(ErrorKind::DuplicateKey)
    );
    assert_eq!(h.get(String::from("a")), Some(&String::from("va")));
    h.delete(String::from("a"));
    assert_eq!(h.len(), 0);
}

#[test]
fn constructed_maps_are_well_formed() {
    let h = HashMap::<&str, &str>::empty();
    assert!(h.is_well_formed());
    let mut h = HashMap::<&str, &str>::with_capacity(4);
    assert!(h.is_well_formed());
    assert_eq!(h.insert("a", "va"), Ok(()));
    assert!(h.is_well_formed());
    h.delete("a");
    assert!(h.is_well_formed());
}
