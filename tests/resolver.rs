use std::collections::HashMap;

use photo_sort::resolver::{same_content, slot_state, Decision, Resolver, SlotState};
use photo_sort::walker::candidate_for;

/// Organises one source file into an in-memory destination, the way the
/// program does on disk; returns the name linked, if any.
fn organise(dest: &mut HashMap<String, Vec<u8>>, name: &str, tag: Option<&str>, content: &[u8]) -> Option<String> {
    let base = candidate_for(name, tag.map(|t| t.as_bytes()))?;
    let mut resolver = Resolver::new(base);
    let mut slot = resolver.slot();
    loop {
        let seen = slot_state(dest.get(&slot).map(|c| c.as_slice()), content);
        match resolver.observe(seen) {
            Decision::Link(s) => {
                assert!(!dest.contains_key(&s));
                dest.insert(s.clone(), content.to_vec());
                return Some(s);
            }
            Decision::Skip => return None,
            Decision::Probe(s) => slot = s,
        }
    }
}

const STAMP: &str = "2020:01:02 03:04:05";

#[test]
fn compares_contents() {
    assert!(same_content(b"abc", b"abc"));
    assert!(same_content(b"", b""));
    assert!(!same_content(b"abc", b"abd"));
    assert!(!same_content(b"abc", b"ab"));
}

#[test]
fn slot_states() {
    assert_eq!(slot_state(None, b"x"), SlotState::Vacant);
    assert_eq!(slot_state(Some(b"x"), b"x"), SlotState::Same);
    assert_eq!(slot_state(Some(b"y"), b"x"), SlotState::Different);
}

#[test]
fn resolver_steps() {
    let mut r = Resolver::new("n".to_string());
    assert_eq!(r.slot(), "n.jpeg");
    match r.observe(SlotState::Different) {
        Decision::Probe(s) => assert_eq!(s, "n-1.jpeg"),
        other => panic!("unexpected {:?}", other),
    }
    match r.observe(SlotState::Different) {
        Decision::Probe(s) => assert_eq!(s, "n-2.jpeg"),
        other => panic!("unexpected {:?}", other),
    }
    match r.observe(SlotState::Vacant) {
        Decision::Link(s) => assert_eq!(s, "n-2.jpeg"),
        other => panic!("unexpected {:?}", other),
    }
    assert!(matches!(r.observe(SlotState::Same), Decision::Skip));
    assert_eq!(r.index, 2);
}

#[test]
fn fresh_photo_gets_one_entry() {
    let mut dest = HashMap::new();
    let linked = organise(&mut dest, "a.jpg", Some(STAMP), b"A");
    assert_eq!(linked, Some("2020-01-02_03_04_05.jpeg".to_string()));
    assert_eq!(dest.len(), 1);
    assert_eq!(dest["2020-01-02_03_04_05.jpeg"], b"A".to_vec());
}

#[test]
fn identical_pair_gives_one_entry() {
    let mut dest = HashMap::new();
    organise(&mut dest, "a.jpg", Some(STAMP), b"A");
    assert_eq!(organise(&mut dest, "copy.JPG", Some(STAMP), b"A"), None);
    assert_eq!(dest.len(), 1);
}

#[test]
fn different_pair_gives_two_entries() {
    let mut dest = HashMap::new();
    organise(&mut dest, "a.jpg", Some(STAMP), b"A");
    organise(&mut dest, "b.jpeg", Some(STAMP), b"B");
    assert_eq!(dest.len(), 2);
    assert_eq!(dest["2020-01-02_03_04_05.jpeg"], b"A".to_vec());
    assert_eq!(dest["2020-01-02_03_04_05-1.jpeg"], b"B".to_vec());
}

#[test]
fn third_distinct_photo_takes_next_index() {
    let mut dest = HashMap::new();
    organise(&mut dest, "a.jpg", Some(STAMP), b"A");
    organise(&mut dest, "b.jpg", Some(STAMP), b"B");
    organise(&mut dest, "c.jpg", Some(STAMP), b"C");
    assert_eq!(organise(&mut dest, "b2.jpg", Some(STAMP), b"B"), None);
    assert_eq!(dest.len(), 3);
    assert_eq!(dest["2020-01-02_03_04_05-2.jpeg"], b"C".to_vec());
}

#[test]
fn second_run_adds_nothing() {
    let files: Vec<(&str, Option<&str>, &[u8])> = vec![
        ("a.jpg", Some(STAMP), b"A"),
        ("b.jpeg", Some(STAMP), b"B"),
        ("c.JPG", Some("1999:12:31 23:59:59"), b"C"),
        ("d.png", Some(STAMP), b"D"),
        ("e.jpg", None, b"E"),
    ];
    let mut dest = HashMap::new();
    for (n, t, c) in &files {
        organise(&mut dest, n, *t, c);
    }
    let after_first = dest.clone();
    assert_eq!(after_first.len(), 3);
    for (n, t, c) in &files {
        assert_eq!(organise(&mut dest, n, *t, c), None);
    }
    assert_eq!(dest, after_first);
}

#[test]
fn unorganised_files_leave_destination_alone() {
    let mut dest = HashMap::new();
    assert_eq!(organise(&mut dest, "a.png", Some(STAMP), b"A"), None);
    assert_eq!(organise(&mut dest, "a.jpg", None, b"A"), None);
    assert_eq!(organise(&mut dest, "a.jpg", Some("2020:01:02"), b"A"), None);
    assert!(dest.is_empty());
}

#[test]
fn scenario_same_time_different_content() {
    let mut dest = HashMap::new();
    organise(&mut dest, "a.jpg", Some(STAMP), b"content of a");
    organise(&mut dest, "b.jpeg", Some(STAMP), b"content of b");
    let mut names: Vec<&String> = dest.keys().collect();
    names.sort();
    assert_eq!(names, vec!["2020-01-02_03_04_05-1.jpeg", "2020-01-02_03_04_05.jpeg"]);
    assert_eq!(dest["2020-01-02_03_04_05.jpeg"], b"content of a".to_vec());
    assert_eq!(dest["2020-01-02_03_04_05-1.jpeg"], b"content of b".to_vec());
}

#[test]
fn scenario_already_organised() {
    let mut dest = HashMap::new();
    dest.insert("2020-01-02_03_04_05.jpeg".to_string(), b"X".to_vec());
    assert_eq!(organise(&mut dest, "p.jpg", Some(STAMP), b"X"), None);
    assert_eq!(dest.len(), 1);
    assert_eq!(dest["2020-01-02_03_04_05.jpeg"], b"X".to_vec());
}
