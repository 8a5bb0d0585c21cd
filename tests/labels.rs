use kaede::display::{
    build_gpu_choices, compact_default_name, default_gpu_hint, gpu_choice_label, has_nvidia_gpu,
    pretty_gpu_name, selected_gpu_for_choice, truncate_with_dots,
};
use kaede::models::{GpuChoice, GpuInfo};

fn gpu(index: Option<usize>, name: &str, renderer: Option<&str>) -> GpuInfo {
    GpuInfo {
        card: "card0".to_string(),
        name: name.to_string(),
        driver: None,
        pci_slot: None,
        render_node: None,
        dri_prime_index: index,
        renderer: renderer.map(|r| r.to_string()),
    }
}

#[test]
fn truncation() {
    assert_eq!(truncate_with_dots("abcdefghijklmnopqrstuvwxyz", 18), "abcdefghijklmno...");
    assert_eq!(truncate_with_dots("short", 18), "short");
    assert_eq!(truncate_with_dots("abcdef", 2), "...");
}

#[test]
fn compact_names() {
    assert_eq!(compact_default_name("AMD Radeon RX 6600 Series"), "RX 6600");
    assert_eq!(compact_default_name("NVIDIA"), "NVIDIA");
}

#[test]
fn pretty_names() {
    let amd = gpu(Some(0), "card0", Some("AMD Radeon RX 6600 Series (radeonsi, navi23)"));
    assert_eq!(pretty_gpu_name(&amd), "AMD Radeon RX 6600 Series");
    assert_eq!(pretty_gpu_name(&gpu(Some(3), "(TM)", None)), "GPU 3");
}

#[test]
fn choice_labels_with_gpus() {
    let gpus = vec![
        gpu(Some(0), "card0", Some("AMD Radeon RX 6600 Series (radeonsi)")),
        gpu(Some(1), "NVIDIA Corporation GA106 [GeForce RTX 3060]", None),
        gpu(None, "card9", None),
    ];
    assert_eq!(default_gpu_hint(&gpus), "RX 6600");
    assert_eq!(default_gpu_hint(&[]), "System");
    assert_eq!(gpu_choice_label(&gpus, GpuChoice::Default), "Default GPU (RX 6600)");
    assert_eq!(gpu_choice_label(&gpus, GpuChoice::Gpu(1)), "NVIDIA GA106 (#1)");
    assert_eq!(gpu_choice_label(&gpus, GpuChoice::Gpu(5)), "GPU 5");
    assert_eq!(selected_gpu_for_choice(&gpus, GpuChoice::Gpu(1)), Some(1));
    assert_eq!(selected_gpu_for_choice(&gpus, GpuChoice::Default), None);
    let choices = build_gpu_choices(&gpus);
    assert_eq!(choices.len(), 3);
    assert_eq!(choices[0], ("Default GPU (RX 6600)".to_string(), GpuChoice::Default));
    assert_eq!(choices[2], ("NVIDIA GA106 (#1)".to_string(), GpuChoice::Gpu(1)));
    assert!(has_nvidia_gpu(&gpus));
    assert!(!has_nvidia_gpu(&gpus[..1]));
}
