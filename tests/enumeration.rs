use kaede::gpu::{
    card_number, enumerate_gpus, index_gpus, is_primary_card, is_render_node, parse_lspci_gpu_line,
    pci_slot_from_uevent, renderer_from_glxinfo, renderer_from_vulkaninfo,
};
use kaede::models::{AppConfig, ConfigStore, GpuChoice, GpuInfo};
use kaede::updates::{compare_versions, update_result, UpdateResult};
use std::cmp::Ordering;

fn card(name: &str, node: Option<&str>) -> GpuInfo {
    GpuInfo {
        card: name.to_string(),
        name: name.to_string(),
        driver: None,
        pci_slot: None,
        render_node: node.map(|s| s.to_string()),
        dri_prime_index: None,
        renderer: None,
    }
}

#[test]
fn card_numbers() {
    assert_eq!(card_number("card0"), 0);
    assert_eq!(card_number("card12"), 12);
    assert_eq!(card_number("cardcard3"), 3);
    assert_eq!(card_number("cardX"), usize::MAX);
    assert_eq!(card_number("card"), usize::MAX);
    assert_eq!(card_number("card99999999999999999999999"), usize::MAX);
}

#[test]
fn gpus_indexed_in_numeric_order() {
    let cards = vec![
        card("card10", None),
        card("card2", Some("/dev/dri/renderD130")),
        card("cardX", None),
        card("card0", None),
    ];
    let nodes = vec!["/dev/dri/renderD128".to_string(), "/dev/dri/renderD129".to_string()];
    let out = index_gpus(cards, &nodes);
    let names: Vec<&str> = out.iter().map(|g| g.card.as_str()).collect();
    assert_eq!(names, vec!["card0", "card2", "card10", "cardX"]);
    for (i, g) in out.iter().enumerate() {
        assert_eq!(g.dri_prime_index, Some(i));
    }
    assert_eq!(out[0].render_node.as_deref(), Some("/dev/dri/renderD128"));
    assert_eq!(out[1].render_node.as_deref(), Some("/dev/dri/renderD130"));
    assert_eq!(out[2].render_node, None);
}

#[test]
fn device_names() {
    assert!(is_primary_card("card1"));
    assert!(!is_primary_card("card1-DP-2"));
    assert!(!is_primary_card("renderD128"));
    assert!(is_render_node("renderD129"));
    assert!(!is_render_node("card0"));
}

#[test]
fn lspci_lines() {
    assert_eq!(
        parse_lspci_gpu_line("01:00.0 VGA compatible controller [0300]: NVIDIA Corporation GA106 [10de:2504] (rev a1)"),
        Some((
            "01:00.0".to_string(),
            "VGA compatible controller [0300]: NVIDIA Corporation GA106 [10de:2504] (rev a1)".to_string()
        ))
    );
    assert_eq!(parse_lspci_gpu_line("00:1f.3 Audio device [0403]: Intel"), None);
}

#[test]
fn uevent_and_renderer_output() {
    assert_eq!(
        pci_slot_from_uevent("DRIVER=i915\nPCI_CLASS=30000\nPCI_SLOT_NAME=0000:00:02.0\n").as_deref(),
        Some("0000:00:02.0")
    );
    assert_eq!(pci_slot_from_uevent("DRIVER=i915\n"), None);
    assert_eq!(
        renderer_from_glxinfo("name of display: :0\nOpenGL renderer string: Mesa Intel(R) UHD Graphics 620 (KBL GT2)\n").as_deref(),
        Some("Mesa Intel(R) UHD Graphics 620 (KBL GT2)")
    );
    assert_eq!(
        renderer_from_vulkaninfo("Devices:\n========\n   GPU0:\n\tdeviceName = x\n").as_deref(),
        Some("GPU0:")
    );
    assert_eq!(renderer_from_vulkaninfo("nothing here\n"), None);
}

#[test]
fn filter_names() {
    let mut g = card("card1", None);
    g.name = "NVIDIA Corporation GA106 [GeForce RTX 3060 Lite Hash Rate] (rev a1)".to_string();
    assert_eq!(g.name_for_filter(), "NVIDIA GA106");
    g.renderer = Some("AMD Radeon RX 6600 Series (radeonsi, navi23, LLVM 15.0.7, DRM 3.49)".to_string());
    assert_eq!(g.name_for_filter(), "AMD Radeon RX 6600 Series");
    g.renderer = Some("GPU0: Intel(R) UHD Graphics 620".to_string());
    assert_eq!(g.name_for_filter(), "Intel UHD Graphics 620");
}

#[test]
fn choice_labels() {
    assert_eq!(GpuChoice::Default.label(), "Default GPU");
    assert_eq!(GpuChoice::Gpu(12).label(), "GPU 12");
    assert_eq!(GpuChoice::default(), GpuChoice::Default);
}

#[test]
fn config_store_choices_and_flags() {
    let mut store = ConfigStore::from_parts("/tmp/kaede.toml".to_string(), AppConfig::default());
    assert_eq!(store.get_choice("a.desktop"), GpuChoice::Default);
    store.set_choice("a.desktop", GpuChoice::Gpu(1));
    store.set_choice("b.desktop", GpuChoice::Gpu(2));
    store.set_choice("a.desktop", GpuChoice::Default);
    assert_eq!(store.get_choice("a.desktop"), GpuChoice::Default);
    assert_eq!(store.get_choice("b.desktop"), GpuChoice::Gpu(2));
    assert_eq!(store.data().assignments.len(), 2);
    assert!(store.show_steam_apps() && store.show_heroic_apps() && store.show_flatpak_apps());
    store.set_show_heroic_apps(false);
    assert!(!store.show_heroic_apps());
    assert!(store.show_steam_apps());
    store.set_show_steam_apps(false);
    store.set_show_flatpak_apps(false);
    assert!(!store.show_steam_apps() && !store.show_flatpak_apps());
}

#[test]
fn version_comparison() {
    assert_eq!(compare_versions("1.2.0", "1.1.9"), Ordering::Greater);
    assert_eq!(compare_versions("1.2", "1.2.1"), Ordering::Less);
    assert_eq!(compare_versions("1.2.3", "1.2.3"), Ordering::Equal);
    assert_eq!(compare_versions("1.x.3", "1.3"), Ordering::Equal);
    assert!(matches!(update_result("v1.3.0", "1.2.0"), UpdateResult::NewRelease(v) if v == "1.3.0"));
    assert!(matches!(update_result("v1.2.0", "1.2.0"), UpdateResult::UpToDate));
    assert!(matches!(update_result("1.1.0", "1.2.0"), UpdateResult::Beta));
}

#[test]
fn enumeration_keeps_primary_cards_only() {
    let devices = vec![
        card("card1-DP-2", None),
        card("renderD128", None),
        card("card1", None),
        card("card0-eDP-1", None),
        card("card0", None),
    ];
    let out = enumerate_gpus(devices, &[]);
    let names: Vec<&str> = out.iter().map(|g| g.card.as_str()).collect();
    assert_eq!(names, vec!["card0", "card1"]);
    assert_eq!(out[0].dri_prime_index, Some(0));
    assert_eq!(out[1].dri_prime_index, Some(1));
}
