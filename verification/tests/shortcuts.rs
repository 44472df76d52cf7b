use forma_dock::shortcuts::{
    display_name, has_shortcut_badge, icon_candidates, icon_files_in_url, shortcut_kind, wide_null_path,
    ShortcutKind,
};

#[test]
fn url_icon_file_lines() {
    let content = b"[InternetShortcut]\r\nURL=https://example.com\r\nIconFile=\"C:\\Games\\game.ico\"\r\nIconIndex=0\r\n  IconFile= D:\\other.exe  \r\n";
    assert_eq!(
        icon_files_in_url(content),
        vec!["C:\\Games\\game.ico".to_string(), "D:\\other.exe".to_string()]
    );
}

#[test]
fn url_quotes_stripped_only_at_the_ends() {
    assert_eq!(icon_files_in_url(b"IconFile= \"x.ico\""), vec!["\"x.ico".to_string()]);
    assert_eq!(icon_files_in_url(b"IconFile=\"\"\"a\"\""), vec!["a".to_string()]);
    assert_eq!(icon_files_in_url(b"IconFile="), vec!["".to_string()]);
}

#[test]
fn url_without_icon_file() {
    assert!(icon_files_in_url(b"").is_empty());
    assert!(icon_files_in_url(b"iconfile=x\nIcon File=y").is_empty());
}

#[test]
fn url_invalid_utf8_is_replaced() {
    assert_eq!(icon_files_in_url(b"IconFile=a\xffb"), vec!["a\u{FFFD}b".to_string()]);
}

#[test]
fn shortcut_kinds() {
    assert_eq!(shortcut_kind("site.url"), ShortcutKind::Url);
    assert_eq!(shortcut_kind("Site.URL"), ShortcutKind::Url);
    assert_eq!(shortcut_kind("app.Lnk"), ShortcutKind::Link);
    assert_eq!(shortcut_kind(".url"), ShortcutKind::Plain);
    assert_eq!(shortcut_kind("..url"), ShortcutKind::Url);
    assert_eq!(shortcut_kind("notes.txt"), ShortcutKind::Plain);
    assert_eq!(shortcut_kind("url"), ShortcutKind::Plain);
    assert_eq!(shortcut_kind(".."), ShortcutKind::Plain);
    assert_eq!(shortcut_kind("app.LN\u{212A}"), ShortcutKind::Plain);
}

#[test]
fn shortcut_badge() {
    assert!(has_shortcut_badge(false, "Game.URL"));
    assert!(has_shortcut_badge(false, "tool.lnk"));
    assert!(has_shortcut_badge(false, "app.LN\u{212A}"));
    assert!(!has_shortcut_badge(true, "folder.lnk"));
    assert!(!has_shortcut_badge(false, "readme.txt"));
    assert!(!has_shortcut_badge(false, ".url"));
}

#[test]
fn shown_names() {
    assert_eq!(display_name("Game.URL"), "Game");
    assert_eq!(display_name("a.b.lnk"), "a.b");
    assert_eq!(display_name("readme.txt"), "readme.txt");
    assert_eq!(display_name(".lnk"), "");
    assert_eq!(display_name("Folder"), "Folder");
}

#[test]
fn wide_paths() {
    let w = |s: &str| -> Vec<u16> { s.encode_utf16().chain(std::iter::once(0)).collect() };
    assert_eq!(wide_null_path("C:\\x\\y.txt"), w("C:\\x\\y.txt"));
    assert_eq!(wide_null_path("\\\\?\\C:\\x"), w("C:\\x"));
    assert_eq!(wide_null_path("\\\\?\\UNC\\server\\share"), w("\\\\server\\share"));
    assert_eq!(wide_null_path("C:\\😀é"), w("C:\\😀é"));
    assert_eq!(wide_null_path(""), vec![0]);
}

#[test]
fn icon_candidates_by_kind() {
    let own = "C:/z/app.url".to_string();
    assert_eq!(
        icon_candidates(ShortcutKind::Url, vec!["a.ico".to_string(), "b.ico".to_string()], None, own.clone()),
        vec!["a.ico".to_string(), "b.ico".to_string(), own.clone()]
    );
    assert_eq!(
        icon_candidates(ShortcutKind::Link, vec!["x.ico".to_string()], Some("t.exe".to_string()), own.clone()),
        vec!["t.exe".to_string(), own.clone()]
    );
    assert_eq!(icon_candidates(ShortcutKind::Link, Vec::new(), None, own.clone()), vec![own.clone()]);
    assert_eq!(
        icon_candidates(ShortcutKind::Plain, vec!["x.ico".to_string()], Some("t.exe".to_string()), own.clone()),
        vec![own]
    );
}
