use kaede::launcher::{
    apply_launcher_override, build_env_pairs, desktop_exec_value, desktop_override_content,
    flatpak_override_args, gpu_profile, is_steam_exec, looks_like_flatpak_run,
    may_write_override, mesa_vk_device_select_from_pci, override_removable,
    rewrite_desktop_override_content, wrap_exec_for_gpu, wrap_flatpak_run_with_env,
    OverrideAction,
};
use kaede::models::{DesktopApp, GpuChoice, GpuInfo};

fn mesa_gpu() -> GpuInfo {
    GpuInfo {
        card: "card0".to_string(),
        name: "Intel UHD Graphics 620".to_string(),
        driver: Some("i915".to_string()),
        pci_slot: Some("0000:00:02.0".to_string()),
        render_node: None,
        dri_prime_index: Some(0),
        renderer: None,
    }
}

fn nvidia_gpu() -> GpuInfo {
    GpuInfo {
        card: "card1".to_string(),
        name: "GA106".to_string(),
        driver: Some("nvidia".to_string()),
        pci_slot: Some("01:00.0".to_string()),
        render_node: None,
        dri_prime_index: Some(1),
        renderer: None,
    }
}

fn app(command: &str) -> DesktopApp {
    DesktopApp {
        desktop_id: "foo.desktop".to_string(),
        path: "/usr/share/applications/foo.desktop".to_string(),
        name: "Foo".to_string(),
        icon: Some("foo".to_string()),
        command: command.to_string(),
        is_steam_game: false,
        steam_app_id: None,
        is_heroic_game: false,
        heroic_platform: None,
        heroic_app_name: None,
        is_flatpak: false,
        flatpak_app_id: None,
    }
}

#[test]
fn flatpak_run_wrapped_for_mesa_gpu_zero() {
    let gpu = mesa_gpu();
    let out = wrap_exec_for_gpu("flatpak run --branch=stable org.foo.Bar", 0, Some(&gpu));
    assert_eq!(
        out,
        "flatpak run --env=DRI_PRIME=0 --env=MESA_VK_DEVICE_SELECT=pci-0000_00_02_0 --env=MESA_VK_DEVICE_SELECT_FORCE_DEFAULT_DEVICE=1 --branch=stable org.foo.Bar"
    );
}

#[test]
fn plain_command_gets_env_prefix() {
    assert_eq!(wrap_exec_for_gpu("foo --bar", 2, None), "env DRI_PRIME=2 foo --bar");
}

#[test]
fn flatpak_wrap_without_run_falls_back_to_env() {
    let pairs = vec!["DRI_PRIME=1".to_string()];
    assert_eq!(wrap_flatpak_run_with_env("foo", &pairs), "env DRI_PRIME=1 foo");
    assert_eq!(
        wrap_flatpak_run_with_env("/usr/bin/flatpak  run   app.Id", &pairs),
        "/usr/bin/flatpak run --env=DRI_PRIME=1 app.Id"
    );
}

#[test]
fn flatpak_run_detection() {
    assert!(looks_like_flatpak_run("/usr/bin/flatpak run org.a.B"));
    assert!(!looks_like_flatpak_run("flatpak info org.a.B"));
    assert!(!looks_like_flatpak_run("run flatpak"));
}

#[test]
fn mesa_selector_normalisation() {
    assert_eq!(mesa_vk_device_select_from_pci(Some("01:00.0")).as_deref(), Some("pci-0000_01_00_0"));
    assert_eq!(mesa_vk_device_select_from_pci(Some("0000:03:00.0")).as_deref(), Some("pci-0000_03_00_0"));
    assert_eq!(mesa_vk_device_select_from_pci(Some("   ")), None);
    assert_eq!(mesa_vk_device_select_from_pci(None), None);
}

#[test]
fn profiles_by_vendor() {
    let p = gpu_profile(Some(&nvidia_gpu()));
    assert!(p.is_nvidia && !p.is_mesa);
    let p = gpu_profile(Some(&mesa_gpu()));
    assert!(!p.is_nvidia && p.is_mesa);
    assert_eq!(p.mesa_vk_device_select.as_deref(), Some("pci-0000_00_02_0"));
    let mut amd = mesa_gpu();
    amd.driver = Some("AMDGPU".to_string());
    assert!(gpu_profile(Some(&amd)).is_mesa);
    let mut other = mesa_gpu();
    other.driver = Some("vc4".to_string());
    assert!(!gpu_profile(Some(&other)).is_mesa);
    let mut via_renderer = other.clone();
    via_renderer.renderer = Some("Mesa V3D 4.2".to_string());
    assert!(gpu_profile(Some(&via_renderer)).is_mesa);
    let p = gpu_profile(None);
    assert!(!p.is_nvidia && !p.is_mesa && p.mesa_vk_device_select.is_none());
}

#[test]
fn env_pairs_for_steam_mesa() {
    let gpu = mesa_gpu();
    assert_eq!(
        build_env_pairs(0, true, Some(&gpu)),
        vec![
            "DRI_PRIME=0".to_string(),
            "MESA_VK_DEVICE_SELECT=pci-0000_00_02_0".to_string(),
            "MESA_VK_DEVICE_SELECT_FORCE_DEFAULT_DEVICE=1".to_string(),
            "PRESSURE_VESSEL_IMPORT_VARS=DRI_PRIME,MESA_VK_DEVICE_SELECT,MESA_VK_DEVICE_SELECT_FORCE_DEFAULT_DEVICE".to_string(),
        ]
    );
    assert_eq!(build_env_pairs(3, false, None), vec!["DRI_PRIME=3".to_string()]);
}

#[test]
fn steam_exec_detection() {
    assert!(is_steam_exec("steam steam://rungameid/440"));
    assert!(is_steam_exec("/usr/bin/Steam -applaunch 440"));
    assert!(!is_steam_exec("firefox"));
}

#[test]
fn exec_value_of_desktop_file() {
    assert_eq!(
        desktop_exec_value("[Desktop Entry]\nExec=\nExec=  foo %U  \n").as_deref(),
        Some("foo %U")
    );
    assert_eq!(desktop_exec_value("[Desktop Entry]\nName=x\n"), None);
}

#[test]
fn rewrite_replaces_first_exec_and_marks() {
    let source = "[Desktop Entry]\nName=Foo\nExec=foo %U\nIcon=foo\n\n[Desktop Action New]\nExec=foo --new\n";
    let out = rewrite_desktop_override_content(source, "env DRI_PRIME=1 foo %U", &app("foo"));
    assert_eq!(
        out,
        "[Desktop Entry]\nName=Foo\nExec=env DRI_PRIME=1 foo %U\nIcon=foo\n\n[Desktop Action New]\nExec=foo --new\nX-Kaede-Managed=true\n"
    );
    assert_eq!(desktop_override_content(source, &app("foo"), 1, None), out);
}

#[test]
fn rewrite_inserts_missing_exec() {
    let source = "[Desktop Entry]\nName=Foo\n[Other]\nX-Kaede-Managed=yes\n";
    let out = rewrite_desktop_override_content(source, "env DRI_PRIME=0 foo", &app("foo"));
    assert_eq!(
        out,
        "[Desktop Entry]\nName=Foo\nExec=env DRI_PRIME=0 foo\n[Other]\nX-Kaede-Managed=true\n"
    );
}

#[test]
fn rewrite_blank_source_is_fresh_launcher() {
    let out = rewrite_desktop_override_content("  \n", "env DRI_PRIME=1 foo", &app("foo"));
    assert_eq!(
        out,
        "[Desktop Entry]\nType=Application\nName=Foo\nIcon=foo\nExec=env DRI_PRIME=1 foo\nTerminal=false\nX-Kaede-Managed=true\n"
    );
    assert!(override_removable(Some(&out)));
}

#[test]
fn override_ownership_checks() {
    assert!(!override_removable(None));
    assert!(!override_removable(Some("[Desktop Entry]\nExec=foo\n")));
    assert!(!may_write_override("/a/foo.desktop", "/a/foo.desktop", Some("[Desktop Entry]\n")));
    assert!(!may_write_override("/a/foo.desktop", "/a/foo.desktop", None));
    assert!(may_write_override("/a/foo.desktop", "/a/foo.desktop", Some("X-Kaede-Managed=true\n")));
    assert!(may_write_override("/usr/foo.desktop", "/a/foo.desktop", None));
}

#[test]
fn flatpak_args_for_default_and_gpu() {
    let args = flatpak_override_args("org.foo.Bar", GpuChoice::Default, None);
    assert_eq!(args.len(), 10);
    assert_eq!(args[0], "override");
    assert_eq!(args[1], "--user");
    assert_eq!(args[2], "--unset-env=DRI_PRIME");
    assert_eq!(args[9], "org.foo.Bar");
    let gpu = nvidia_gpu();
    let args = flatpak_override_args("org.foo.Bar", GpuChoice::Gpu(1), Some(&gpu));
    assert_eq!(
        args,
        vec![
            "override".to_string(),
            "--user".to_string(),
            "--env=DRI_PRIME=1".to_string(),
            "--env=__NV_PRIME_RENDER_OFFLOAD=1".to_string(),
            "--env=__GLX_VENDOR_LIBRARY_NAME=nvidia".to_string(),
            "--env=__VK_LAYER_NV_optimus=NVIDIA_only".to_string(),
            "org.foo.Bar".to_string(),
        ]
    );
}

#[test]
fn dispatch_by_surface() {
    let mut steam = app("steam steam://rungameid/440");
    steam.is_steam_game = true;
    steam.steam_app_id = Some("440".to_string());
    match apply_launcher_override(&steam, GpuChoice::Gpu(0), None) {
        OverrideAction::SteamLaunchOptions { app_id, env } => {
            assert_eq!(app_id, "440");
            assert_eq!(env, vec!["DRI_PRIME=0".to_string(), "PRESSURE_VESSEL_IMPORT_VARS=DRI_PRIME".to_string()]);
        }
        _ => panic!("expected the Steam patcher"),
    }
    let mut no_id = steam.clone();
    no_id.steam_app_id = None;
    assert!(matches!(
        apply_launcher_override(&no_id, GpuChoice::Gpu(4), None),
        OverrideAction::WriteDesktopOverride { index: 4 }
    ));
    let mut heroic = app("xdg-open heroic://launch/legendary/foo");
    heroic.is_heroic_game = true;
    heroic.heroic_platform = Some("legendary".to_string());
    heroic.heroic_app_name = Some("foo".to_string());
    match apply_launcher_override(&heroic, GpuChoice::Default, None) {
        OverrideAction::HeroicEnv { platform, app_name, env } => {
            assert_eq!(platform, "legendary");
            assert_eq!(app_name, "foo");
            assert!(env.is_empty());
        }
        _ => panic!("expected the Heroic patcher"),
    }
    let mut flatpak = app("flatpak run org.foo.Bar");
    flatpak.is_flatpak = true;
    flatpak.flatpak_app_id = Some("org.foo.Bar".to_string());
    assert!(matches!(
        apply_launcher_override(&flatpak, GpuChoice::Default, None),
        OverrideAction::FlatpakOverride { .. }
    ));
    assert!(matches!(
        apply_launcher_override(&app("foo"), GpuChoice::Default, None),
        OverrideAction::RemoveDesktopOverride
    ));
}
