use forma_dock::nav::ZoneNav;
use std::path::PathBuf;

fn zones(n: usize) -> Vec<PathBuf> {
    (0..n).map(|i| PathBuf::from(format!("/z{}", i))).collect()
}

#[test]
fn no_zone_found_uses_root() {
    let nav = ZoneNav::new(Vec::new(), PathBuf::from("/root"));
    assert_eq!(nav.zone_count(), 1);
    assert_eq!(nav.zone_index(), 0);
    assert_eq!(nav.current(), &PathBuf::from("/root"));
}

#[test]
fn single_zone_does_not_move() {
    let mut nav = ZoneNav::new(zones(1), PathBuf::from("/root"));
    assert!(!nav.go_next());
    assert!(!nav.go_prev());
    assert_eq!(nav.zone_index(), 0);
    assert_eq!(nav.current(), &PathBuf::from("/z0"));
}

#[test]
fn moves_wrap_around() {
    let mut nav = ZoneNav::new(zones(3), PathBuf::from("/root"));
    assert!(nav.go_prev());
    assert_eq!(nav.zone_index(), 2);
    assert_eq!(nav.current(), &PathBuf::from("/z2"));
    assert!(nav.go_next());
    assert_eq!(nav.zone_index(), 0);
    assert!(nav.go_next());
    assert!(nav.go_next());
    assert_eq!(nav.zone_index(), 2);
    assert!(nav.go_next());
    assert_eq!(nav.zone_index(), 0);
}

#[test]
fn back_then_forward_returns() {
    let mut nav = ZoneNav::new(zones(4), PathBuf::from("/root"));
    nav.go_next();
    nav.go_next();
    let here = nav.zone_index();
    nav.go_prev();
    nav.go_next();
    assert_eq!(nav.zone_index(), here);
    nav.go_next();
    nav.go_prev();
    assert_eq!(nav.zone_index(), here);
}

#[test]
fn a_full_cycle_returns_to_start() {
    let mut nav = ZoneNav::new(zones(5), PathBuf::from("/root"));
    nav.go_next();
    let start = nav.zone_index();
    for _ in 0..5 {
        nav.go_next();
    }
    assert_eq!(nav.zone_index(), start);
}

#[test]
fn going_forward_visits_each_zone_once() {
    let mut nav = ZoneNav::new(zones(4), PathBuf::from("/root"));
    nav.go_next();
    let start = nav.zone_index();
    let mut seen = Vec::new();
    for _ in 0..4 {
        nav.go_next();
        seen.push(nav.zone_index());
    }
    assert_eq!(seen, vec![2, 3, 0, 1]);
    assert_eq!(*seen.last().unwrap(), start);
}
