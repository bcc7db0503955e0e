use std::collections::HashMap;

use marblecomic::{Comic, MarbleOptions, Tracker, TrackerReadError};

fn comic_with_translations(id: usize, translations: Vec<(&str, usize)>) -> Comic {
    Comic {
        id,
        comic_name: None,
        description: None,
        keywords: vec![],
        translations: translations
            .into_iter()
            .map(|(l, t)| (l.to_string(), t))
            .collect(),
        found: true,
    }
}

#[test]
fn tracker_round_trip() {
    let mut tracker = Tracker::default();
    tracker.set_progress(7, 2, 5);
    let bytes = tracker.save();
    let reloaded = Tracker::new_from_reader(&bytes).unwrap();
    assert_eq!(reloaded.get_progress(&comic_with_translations(7, vec![])), (2, 5));
    // an identifier that was never set reads as the default position
    assert_eq!(reloaded.get_progress(&comic_with_translations(9, vec![])), (0, 0));
}

#[test]
fn tracker_persisted_shape() {
    let mut tracker = Tracker::default();
    tracker.set_progress(7, 2, 5);
    assert_eq!(tracker.save(), b"{\"7\":[2,5]}".to_vec());
    assert_eq!(Tracker::default().save(), b"{}".to_vec());
}

#[test]
fn tracker_set_overwrites() {
    let mut tracker = Tracker::default();
    tracker.set_progress(7, 2, 5);
    tracker.set_progress(7, 3, 0);
    assert_eq!(tracker.get_progress(&comic_with_translations(7, vec![])), (3, 0));
    assert_eq!(tracker.list_comic_with_progress(), vec![7usize]);
}

#[test]
fn tracker_lists_in_insertion_order() {
    let mut tracker = Tracker::default();
    tracker.set_progress(7, 1, 1);
    tracker.set_progress(3, 0, 2);
    assert_eq!(tracker.list_comic_with_progress(), vec![7usize, 3usize]);
}

#[test]
fn tracker_reads_own_identifier_only() {
    let mut tracker = Tracker::default();
    tracker.set_progress(3, 1, 4);
    // id 9 has no entry of its own: the default, not a related id's entry
    let c = comic_with_translations(9, vec![("german", 8), ("french", 3)]);
    assert_eq!(tracker.get_progress(&c), (0, 0));
    tracker.set_progress(9, 6, 6);
    assert_eq!(tracker.get_progress(&c), (6, 6));
}

#[test]
fn tracker_reads_whitespace_and_duplicates() {
    let t = Tracker::new_from_reader(b" { \"1\" : [ 2 , 3 ] } ").unwrap();
    assert_eq!(t.get_progress(&comic_with_translations(1, vec![])), (2, 3));
    let t = Tracker::new_from_reader(b"{\"1\":[2,3],\"1\":[4,5]}").unwrap();
    assert_eq!(t.get_progress(&comic_with_translations(1, vec![])), (4, 5));
    let t = Tracker::new_from_reader(b"{}").unwrap();
    assert_eq!(t.list_comic_with_progress(), Vec::<usize>::new());
}

#[test]
fn tracker_rejects_malformed_input() {
    for bad in [
        &b""[..],
        b"[]",
        b"{",
        b"{}x",
        b"{\"a\":[1,2]}",
        b"{\"1\":[2]}",
        b"{\"1\":[2,3]",
        b"{\"1\":[2,3],}",
        b"{\"1\":[-2,3]}",
        b"{1:[2,3]}",
        b"{\"1\":[02,3]}",
        b"{\"01\":[2,3]}",
    ] {
        let err = Tracker::new_from_reader(bad).map(|_| ()).unwrap_err();
        assert_eq!(err, TrackerReadError::DecodeError);
    }
}

#[test]
fn tracker_reads_what_serde_writes() {
    let mut m: HashMap<usize, (usize, usize)> = HashMap::new();
    m.insert(7, (2, 5));
    m.insert(11, (0, 9));
    for bytes in [serde_json::to_vec(&m).unwrap(), serde_json::to_vec_pretty(&m).unwrap()] {
        let t = Tracker::new_from_reader(&bytes).unwrap();
        assert_eq!(t.get_progress(&comic_with_translations(7, vec![])), (2, 5));
        assert_eq!(t.get_progress(&comic_with_translations(11, vec![])), (0, 9));
    }
}

#[test]
fn serde_reads_what_tracker_writes() {
    let mut tracker = Tracker::default();
    tracker.set_progress(7, 2, 5);
    tracker.set_progress(11, 0, 9);
    let m: HashMap<usize, (usize, usize)> = serde_json::from_slice(&tracker.save()).unwrap();
    assert_eq!(m.get(&7), Some(&(2, 5)));
    assert_eq!(m.get(&11), Some(&(0, 9)));
    assert_eq!(m.len(), 2);
}

#[test]
fn options_carry_their_fields() {
    let o = MarbleOptions { enable_progress_writing: true, tracker_path: "p.json".to_string() };
    assert!(o.enable_progress_writing);
    assert_eq!(o.tracker_path, "p.json");
}
