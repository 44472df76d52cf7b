use forma_dock::listing::Entry;
use forma_dock::search::{
    icon_outcome, matching_entries, name_passes, normalize_query, plan_icon_requests,
    IconOutcome, IconTracker, MAX_REQUESTS_PER_FRAME,
};
use std::path::PathBuf;

fn entry(name: &str) -> Entry {
    Entry { path: PathBuf::from(format!("/z/{}", name)), name: name.to_string(), is_dir: false }
}

#[test]
fn query_is_trimmed_and_lowered() {
    assert_eq!(normalize_query("  FoO Bar \t"), vec!['f', 'o', 'o', ' ', 'b', 'a', 'r']);
    assert!(normalize_query("   ").is_empty());
}

#[test]
fn names_match_case_insensitively() {
    let q = normalize_query("READ");
    assert!(name_passes("ReadMe.txt", &q));
    assert!(!name_passes("notes", &q));
    assert!(name_passes("anything", &Vec::new()));
}

#[test]
fn matching_positions() {
    let entries = vec![entry("Alpha"), entry("beta"), entry("ALPHABET"), entry("gamma")];
    assert_eq!(matching_entries(&entries, " alpha "), vec![0, 2]);
    assert_eq!(matching_entries(&entries, ""), vec![0, 1, 2, 3]);
    assert!(matching_entries(&entries, "zzz").is_empty());
}

#[test]
fn requests_skip_known_and_filtered() {
    let entries = vec![entry("a1"), entry("b2"), entry("a3"), entry("a4")];
    let mut known = vec![false, false, true, false];
    let reqs = plan_icon_requests(&entries, &mut known, "A", 96, 7);
    let paths: Vec<PathBuf> = reqs.iter().map(|r| r.path.clone()).collect();
    assert_eq!(paths, vec![PathBuf::from("/z/a1"), PathBuf::from("/z/a4")]);
    assert!(reqs.iter().all(|r| r.size_px == 96 && r.generation == 7));
    assert_eq!(known, vec![true, false, true, true]);
}

#[test]
fn requests_are_capped_per_frame() {
    let entries: Vec<Entry> = (0..100).map(|i| entry(&format!("e{}", i))).collect();
    let mut known = vec![false; 100];
    let reqs = plan_icon_requests(&entries, &mut known, "", 64, 1);
    assert_eq!(reqs.len(), MAX_REQUESTS_PER_FRAME);
    assert_eq!(reqs[63].path, PathBuf::from("/z/e63"));
    assert!(known[..64].iter().all(|k| *k));
    assert!(known[64..].iter().all(|k| !*k));
}

#[test]
fn answers_by_generation() {
    assert_eq!(icon_outcome(3, 3, true), IconOutcome::Texture);
    assert_eq!(icon_outcome(3, 3, false), IconOutcome::Failed);
    assert_eq!(icon_outcome(2, 3, true), IconOutcome::Stale);
}

#[test]
fn blank_search_shows_everything() {
    let entries = vec![entry("x"), entry("Y"), entry("z")];
    assert_eq!(matching_entries(&entries, " \t "), vec![0, 1, 2]);
}

#[test]
fn requests_are_distinct_and_in_order() {
    let entries = vec![entry("a"), entry("b"), entry("c")];
    let mut known = vec![false, true, false];
    let reqs = plan_icon_requests(&entries, &mut known, "", 64, 2);
    let paths: Vec<PathBuf> = reqs.iter().map(|r| r.path.clone()).collect();
    assert_eq!(paths, vec![PathBuf::from("/z/a"), PathBuf::from("/z/c")]);
}

#[test]
fn no_entry_requested_twice_across_frames() {
    let entries: Vec<Entry> = (0..100).map(|i| entry(&format!("e{}", i))).collect();
    let mut t = IconTracker::new(entries.len(), 5);
    assert!(!t.begin_frame(96));
    let first = t.request_icons(&entries, "");
    assert!(!t.begin_frame(96));
    let second = t.request_icons(&entries, "");
    assert!(!t.begin_frame(96));
    let third = t.request_icons(&entries, "");
    assert_eq!(first.len(), 64);
    assert_eq!(second.len(), 36);
    assert!(third.is_empty());
    let mut all: Vec<PathBuf> = first.iter().chain(second.iter()).map(|r| r.path.clone()).collect();
    all.sort();
    all.dedup();
    assert_eq!(all.len(), 100);
    assert!(first.iter().chain(second.iter()).all(|r| r.generation == 5 && r.size_px == 96));
}

#[test]
fn size_change_drops_requests_and_starts_a_generation() {
    let entries = vec![entry("a"), entry("b")];
    let mut t = IconTracker::new(entries.len(), 1);
    assert!(!t.begin_frame(64));
    assert_eq!(t.request_icons(&entries, "").len(), 2);
    assert!(t.begin_frame(96));
    assert_eq!(t.current_generation(), 2);
    let again = t.request_icons(&entries, "");
    assert_eq!(again.len(), 2);
    assert!(again.iter().all(|r| r.generation == 2 && r.size_px == 96));
    assert!(!t.begin_frame(96));
    assert!(t.request_icons(&entries, "").is_empty());
}

#[test]
fn rescan_starts_a_generation_and_wraps() {
    let mut t = IconTracker::new(3, u32::MAX);
    t.rescan(1);
    assert_eq!(t.current_generation(), 0);
    let entries = vec![entry("only")];
    assert!(!t.begin_frame(64));
    let reqs = t.request_icons(&entries, "");
    assert_eq!(reqs.len(), 1);
    assert_eq!(reqs[0].generation, 0);
}

#[test]
fn search_limits_what_is_requested() {
    let entries = vec![entry("apple"), entry("berry"), entry("APRICOT")];
    let mut t = IconTracker::new(entries.len(), 3);
    t.begin_frame(64);
    let a = t.request_icons(&entries, "ap");
    assert_eq!(a.len(), 2);
    let b = t.request_icons(&entries, "");
    assert_eq!(b.len(), 1);
    assert_eq!(b[0].path, PathBuf::from("/z/berry"));
}
