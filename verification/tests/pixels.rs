use forma_dock::pixels::{icon_rgba, tray_icon_rgba, IconMask, TRAY_ICON_SIZE};

#[test]
fn own_alpha_is_kept_and_channels_swapped() {
    let bgra = vec![1, 2, 3, 0, 4, 5, 6, 7];
    let out = icon_rgba(2, 1, &bgra, &IconMask::Absent);
    assert_eq!(out, vec![3, 2, 1, 0, 6, 5, 4, 7]);
}

#[test]
fn no_alpha_no_mask_is_opaque() {
    let bgra = vec![1, 2, 3, 0, 4, 5, 6, 0];
    let out = icon_rgba(1, 2, &bgra, &IconMask::Absent);
    assert_eq!(out, vec![3, 2, 1, 255, 6, 5, 4, 255]);
}

#[test]
fn unreadable_mask_leaves_alpha() {
    let bgra = vec![1, 2, 3, 0, 4, 5, 6, 0];
    let out = icon_rgba(2, 1, &bgra, &IconMask::Unreadable);
    assert_eq!(out, vec![3, 2, 1, 0, 6, 5, 4, 0]);
}

#[test]
fn mask_gives_alpha_by_red_byte() {
    let bgra = vec![1, 2, 3, 0, 4, 5, 6, 0];
    let mask = IconMask::Pixels { width: 2, height: 1, bgra: vec![0, 0, 200, 0, 0, 0, 128, 0] };
    let out = icon_rgba(2, 1, &bgra, &mask);
    assert_eq!(out, vec![3, 2, 1, 0, 6, 5, 4, 255]);
}

#[test]
fn monochrome_mask_of_double_height() {
    let bgra = vec![9, 9, 9, 0];
    let mask = IconMask::Pixels { width: 1, height: 2, bgra: vec![0, 0, 0, 0, 255, 255, 255, 0] };
    let out = icon_rgba(1, 1, &bgra, &mask);
    assert_eq!(out, vec![9, 9, 9, 255]);
}

#[test]
fn mask_of_other_size_is_ignored() {
    let bgra = vec![9, 9, 9, 0];
    let mask = IconMask::Pixels { width: 1, height: 3, bgra: vec![0; 12] };
    assert_eq!(icon_rgba(1, 1, &bgra, &mask), vec![9, 9, 9, 0]);
    let mask = IconMask::Pixels { width: 2, height: 1, bgra: vec![0; 8] };
    assert_eq!(icon_rgba(1, 1, &bgra, &mask), vec![9, 9, 9, 0]);
}

#[test]
fn mask_unused_when_alpha_present() {
    let bgra = vec![1, 1, 1, 0, 2, 2, 2, 1];
    let mask = IconMask::Pixels { width: 2, height: 1, bgra: vec![0, 0, 255, 0, 0, 0, 255, 0] };
    assert_eq!(icon_rgba(2, 1, &bgra, &mask), vec![1, 1, 1, 0, 2, 2, 2, 1]);
}

#[test]
fn empty_bitmap() {
    assert!(icon_rgba(0, 0, &Vec::new(), &IconMask::Absent).is_empty());
}

#[test]
fn tray_icon_frame_and_fill() {
    let px = tray_icon_rgba();
    let size = TRAY_ICON_SIZE as usize;
    assert_eq!(px.len(), size * size * 4);
    let at = |x: usize, y: usize| {
        let i = (y * size + x) * 4;
        (px[i], px[i + 1], px[i + 2], px[i + 3])
    };
    assert_eq!(at(0, 0), (20, 200, 255, 255));
    assert_eq!(at(15, 7), (20, 200, 255, 255));
    assert_eq!(at(7, 15), (20, 200, 255, 255));
    assert_eq!(at(1, 1), (10, 40, 60, 255));
    assert_eq!(at(14, 14), (10, 40, 60, 255));
}
