use kaede::desktop::{
    merge_desktop_entries, flatpak_app_id_from_exec, heroic_game_from_exec, is_flatpak_entry, looks_like_flatpak_app_id,
    parse_desktop_file, steam_app_id_from_exec, strip_desktop_exec_placeholders,
};

#[test]
fn heroic_query_form() {
    assert_eq!(
        heroic_game_from_exec("heroic://launch?appName=foo&runner=legendary"),
        Some((Some("legendary".to_string()), Some("foo".to_string())))
    );
}

#[test]
fn heroic_path_form() {
    assert_eq!(
        heroic_game_from_exec("xdg-open \"heroic://launch/gog/1207658924\""),
        Some((Some("gog".to_string()), Some("1207658924".to_string())))
    );
    assert_eq!(heroic_game_from_exec("xdg-open heroic://launch/gog"), None);
    assert_eq!(heroic_game_from_exec("firefox"), None);
    assert_eq!(
        heroic_game_from_exec("heroic://launch?runner=nile"),
        None
    );
    assert_eq!(
        heroic_game_from_exec("heroic://launch?appName=bar \"--no-gui\""),
        Some((None, Some("bar".to_string())))
    );
}

#[test]
fn steam_ids() {
    assert_eq!(steam_app_id_from_exec("steam steam://rungameid/440").as_deref(), Some("440"));
    assert_eq!(steam_app_id_from_exec("steam -applaunch 570 -novid").as_deref(), Some("570"));
    assert_eq!(steam_app_id_from_exec("steam -applaunch abc"), None);
    assert_eq!(steam_app_id_from_exec("steam steam://rungameid/"), None);
}

#[test]
fn flatpak_ids() {
    assert_eq!(
        flatpak_app_id_from_exec("/usr/bin/flatpak run --branch=stable --arch=x86_64 org.foo.Bar").as_deref(),
        Some("org.foo.Bar")
    );
    assert_eq!(flatpak_app_id_from_exec("flatpak info org.foo.Bar"), None);
    assert!(looks_like_flatpak_app_id("com.valvesoftware.Steam"));
    assert!(!looks_like_flatpak_app_id("steam"));
    assert!(!looks_like_flatpak_app_id("org.foo-bar"));
    assert!(is_flatpak_entry("/var/lib/flatpak/exports/share/applications/x.desktop", "x"));
    assert!(is_flatpak_entry("/usr/share/applications/x.desktop", "flatpak run x.y"));
    assert!(!is_flatpak_entry("/usr/share/applications/x.desktop", "x"));
}

#[test]
fn placeholders_removed() {
    assert_eq!(strip_desktop_exec_placeholders("  foo   %U --bar %f "), "foo --bar");
}

#[test]
fn parse_steam_entry() {
    let content = "[Desktop Entry]\nName=Team Fortress 2\nIcon=steam_icon_440\nExec=steam steam://rungameid/440\nType=Application\n[Desktop Action X]\nName=Other\n";
    let app = parse_desktop_file("/home/u/.local/share/applications/tf2.desktop", "tf2.desktop", content).unwrap();
    assert_eq!(app.desktop_id, "tf2.desktop");
    assert_eq!(app.name, "Team Fortress 2");
    assert_eq!(app.icon.as_deref(), Some("steam_icon_440"));
    assert_eq!(app.command, "steam steam://rungameid/440");
    assert!(app.is_steam_game);
    assert_eq!(app.steam_app_id.as_deref(), Some("440"));
    assert!(!app.is_heroic_game && !app.is_flatpak);
    assert_eq!(app.flatpak_app_id, None);
}

#[test]
fn parse_flatpak_entry() {
    let content = "# comment\n[Desktop Entry]\nType=Application\nExec=/usr/bin/flatpak run --branch=stable org.foo.Bar %U\n";
    let app = parse_desktop_file("/var/lib/flatpak/exports/share/applications/org.foo.Bar.desktop", "org.foo.Bar.desktop", content).unwrap();
    assert_eq!(app.name, "Unnamed Application");
    assert!(app.is_flatpak);
    assert_eq!(app.flatpak_app_id.as_deref(), Some("org.foo.Bar"));
    assert_eq!(app.command, "/usr/bin/flatpak run --branch=stable org.foo.Bar");
    let with_key = "[Desktop Entry]\nType=Application\nX-Flatpak=org.x.Y\nExec=flatpak run org.foo.Bar\n";
    let app = parse_desktop_file("/a/b.desktop", "b.desktop", with_key).unwrap();
    assert_eq!(app.flatpak_app_id.as_deref(), Some("org.x.Y"));
}

#[test]
fn parse_heroic_entry() {
    let content = "[Desktop Entry]\nType=Application\nName=Foo\nExec=xdg-open heroic://launch?appName=foo&runner=legendary\n";
    let app = parse_desktop_file("/a/foo.desktop", "foo.desktop", content).unwrap();
    assert!(app.is_heroic_game);
    assert_eq!(app.heroic_platform.as_deref(), Some("legendary"));
    assert_eq!(app.heroic_app_name.as_deref(), Some("foo"));
}

#[test]
fn parse_rejects_hidden_and_non_applications() {
    assert!(parse_desktop_file("/a/x.desktop", "x.desktop", "[Desktop Entry]\nType=Application\nNoDisplay=TRUE\n").is_none());
    assert!(parse_desktop_file("/a/x.desktop", "x.desktop", "[Desktop Entry]\nType=Application\nHidden=true\n").is_none());
    assert!(parse_desktop_file("/a/x.desktop", "x.desktop", "[Desktop Entry]\nType=Link\n").is_none());
    assert!(parse_desktop_file("/a/x.desktop", "x.desktop", "[Other]\nType=Application\n").is_none());
}

fn entry(id: &str, name: &str, path: &str) -> kaede::models::DesktopApp {
    let content = format!("[Desktop Entry]\nType=Application\nName={name}\nExec=run\n");
    parse_desktop_file(path, id, &content).unwrap()
}

#[test]
fn later_directories_override_and_names_sort() {
    let apps = vec![
        entry("b.desktop", "beta", "/usr/share/applications/b.desktop"),
        entry("a.desktop", "Zulu", "/usr/share/applications/a.desktop"),
        entry("c.desktop", "alpha", "/usr/share/applications/c.desktop"),
        entry("b.desktop", "Beta Local", "/home/u/.local/share/applications/b.desktop"),
    ];
    let merged = merge_desktop_entries(apps);
    let listed: Vec<(&str, &str)> = merged.iter().map(|a| (a.desktop_id.as_str(), a.name.as_str())).collect();
    assert_eq!(listed, vec![("c.desktop", "alpha"), ("b.desktop", "Beta Local"), ("a.desktop", "Zulu")]);
    assert_eq!(merged[1].path, "/home/u/.local/share/applications/b.desktop");
}
