use kaede::error::{overall_outcome, FileReport, PatchError};
use kaede::launcher::steam_env_vars;
use kaede::models::{GpuChoice, GpuInfo};
use kaede::steam::{
    app_state_in_localconfig, assess_localconfig, strip_managed_prefix,
    update_localconfig_content, validate_expected_state,
};
use kaede::vdf::match_matching_brace;

fn nvidia_gpu() -> GpuInfo {
    GpuInfo {
        card: "card1".to_string(),
        name: "NVIDIA GeForce RTX 3060".to_string(),
        driver: Some("nvidia".to_string()),
        pci_slot: Some("01:00.0".to_string()),
        render_node: None,
        dri_prime_index: Some(1),
        renderer: None,
    }
}

fn localconfig() -> String {
    [
        "\"UserLocalConfigStore\"",
        "{",
        "\t\"Software\"",
        "\t{",
        "\t\t\"Valve\"",
        "\t\t{",
        "\t\t\t\"Steam\"",
        "\t\t\t{",
        "\t\t\t\t\"apps\"",
        "\t\t\t\t{",
        "\t\t\t\t\t\"440\"",
        "\t\t\t\t\t{",
        "\t\t\t\t\t\t\"LastPlayed\"\t\t\"1\"",
        "\t\t\t\t\t}",
        "\t\t\t\t}",
        "\t\t\t}",
        "\t\t}",
        "\t}",
        "}",
        "",
    ]
    .join("\n")
}

const P6_VALUE: &str = "KAEDE_GPU_MANAGED=1 DRI_PRIME=1 __NV_PRIME_RENDER_OFFLOAD=1 __GLX_VENDOR_LIBRARY_NAME=nvidia __VK_LAYER_NV_optimus=NVIDIA_only PRESSURE_VESSEL_IMPORT_VARS=DRI_PRIME,__NV_PRIME_RENDER_OFFLOAD,__GLX_VENDOR_LIBRARY_NAME,__VK_LAYER_NV_optimus KAEDE_GPU_MANAGED_END=1 %command%";

fn chars(s: &str) -> Vec<char> {
    s.chars().collect()
}

#[test]
fn brace_matcher_skips_quoted_braces() {
    let s = chars("a { \"b}c\" { } }");
    assert_eq!(match_matching_brace(&s, 2, s.len()), Some(14));
}

#[test]
fn brace_matcher_inner_block() {
    let s = chars("a { \"b}c\" { } }");
    assert_eq!(match_matching_brace(&s, 10, s.len()), Some(12));
}

#[test]
fn brace_matcher_truncated_and_not_a_brace() {
    assert_eq!(match_matching_brace(&chars("{ { }"), 0, 5), None);
    assert_eq!(match_matching_brace(&chars("x{}"), 0, 3), None);
    let s = chars("{\"a\\\"}\"}");
    assert_eq!(match_matching_brace(&s, 0, s.len()), Some(7));
    let s = chars("é{}");
    assert_eq!(match_matching_brace(&s, 1, s.len()), Some(2));
    assert_eq!(match_matching_brace(&s, 0, s.len()), None);
}

#[test]
fn strip_managed_prefix_keeps_tail() {
    assert_eq!(
        strip_managed_prefix("KAEDE_GPU_MANAGED=1 DRI_PRIME=1 KAEDE_GPU_MANAGED_END=1 %command% --foo"),
        "%command% --foo"
    );
}

#[test]
fn strip_managed_prefix_keeps_user_text_before() {
    assert_eq!(
        strip_managed_prefix("gamemoderun KAEDE_GPU_MANAGED=1 X=1 KAEDE_GPU_MANAGED_END=1 %command%"),
        "gamemoderun %command%"
    );
}

#[test]
fn strip_managed_prefix_without_end_marker() {
    assert_eq!(
        strip_managed_prefix("KAEDE_GPU_MANAGED=1 DRI_PRIME=1 %command%"),
        "DRI_PRIME=1 %command%"
    );
    assert_eq!(strip_managed_prefix("%command% -novid"), "%command% -novid");
}

#[test]
fn steam_scenario_nvidia_gpu_one() {
    let gpu = nvidia_gpu();
    let env = steam_env_vars(GpuChoice::Gpu(1), Some(&gpu));
    let (out, changed) =
        update_localconfig_content(&localconfig(), "440", GpuChoice::Gpu(1), &env, false);
    assert!(changed);
    let state = app_state_in_localconfig(&out, "440");
    assert!(state.app_found);
    assert_eq!(state.launch_options.as_deref(), Some(P6_VALUE));
    assert!(out.ends_with('\n'));
}

#[test]
fn steam_second_application_is_noop() {
    let gpu = nvidia_gpu();
    let env = steam_env_vars(GpuChoice::Gpu(1), Some(&gpu));
    let (once, _) = update_localconfig_content(&localconfig(), "440", GpuChoice::Gpu(1), &env, false);
    let (twice, changed) = update_localconfig_content(&once, "440", GpuChoice::Gpu(1), &env, false);
    assert!(!changed);
    assert_eq!(once, twice);
}

#[test]
fn steam_default_removes_managed_region() {
    let gpu = nvidia_gpu();
    let env = steam_env_vars(GpuChoice::Gpu(1), Some(&gpu));
    let (once, _) = update_localconfig_content(&localconfig(), "440", GpuChoice::Gpu(1), &env, false);
    let (back, changed) = update_localconfig_content(&once, "440", GpuChoice::Default, &[], false);
    assert!(changed);
    let state = app_state_in_localconfig(&back, "440");
    assert_eq!(state.launch_options.as_deref(), Some("%command%"));
    assert!(!back.contains("KAEDE_GPU_MANAGED"));
    assert!(validate_expected_state(state.launch_options.as_deref(), GpuChoice::Default));
}

#[test]
fn steam_user_tail_preserved() {
    let content = localconfig().replace(
        "\"LastPlayed\"\t\t\"1\"",
        "\"LaunchOptions\"\t\t\"gamemoderun %command% -novid\"",
    );
    let (out, changed) = update_localconfig_content(&content, "440", GpuChoice::Gpu(0), &[], false);
    assert!(changed);
    let state = app_state_in_localconfig(&out, "440");
    assert_eq!(
        state.launch_options.as_deref(),
        Some("KAEDE_GPU_MANAGED=1 DRI_PRIME=0 KAEDE_GPU_MANAGED_END=1 gamemoderun %command% -novid")
    );
    let (back, _) = update_localconfig_content(&out, "440", GpuChoice::Default, &[], false);
    let state = app_state_in_localconfig(&back, "440");
    assert_eq!(state.launch_options.as_deref(), Some("gamemoderun %command% -novid"));
}

#[test]
fn steam_empty_value_deletes_line() {
    let content = localconfig().replace(
        "\"LastPlayed\"\t\t\"1\"",
        "\"LaunchOptions\"\t\t\"KAEDE_GPU_MANAGED=1 DRI_PRIME=1 KAEDE_GPU_MANAGED_END=1\"",
    );
    let (out, changed) = update_localconfig_content(&content, "440", GpuChoice::Default, &[], false);
    assert!(changed);
    assert!(!out.contains("LaunchOptions"));
}

#[test]
fn steam_missing_app_block_is_created() {
    let (out, changed) = update_localconfig_content(&localconfig(), "570", GpuChoice::Gpu(2), &[], false);
    assert!(changed);
    assert!(out.contains("\t\t\t\t\t\"570\"\n\t\t\t\t\t{\n\t\t\t\t\t\t\"LaunchOptions\"\t\t\"KAEDE_GPU_MANAGED=1 DRI_PRIME=2 KAEDE_GPU_MANAGED_END=1 %command%\"\n\t\t\t\t\t}"));
    let state = app_state_in_localconfig(&out, "570");
    assert!(state.app_found);
    let (same, changed) = update_localconfig_content(&localconfig(), "570", GpuChoice::Default, &[], false);
    assert!(!changed);
    assert_eq!(same, localconfig());
}

#[test]
fn steam_env_wrapper_prefix() {
    let (out, _) = update_localconfig_content(&localconfig(), "440", GpuChoice::Gpu(1), &[], true);
    let state = app_state_in_localconfig(&out, "440");
    assert_eq!(
        state.launch_options.as_deref(),
        Some("env KAEDE_GPU_MANAGED=1 DRI_PRIME=1 KAEDE_GPU_MANAGED_END=1 %command%")
    );
    let (again, changed) = update_localconfig_content(&out, "440", GpuChoice::Gpu(1), &[], true);
    assert!(!changed);
    assert_eq!(again, out);
    let (back, _) = update_localconfig_content(&out, "440", GpuChoice::Default, &[], true);
    let state = app_state_in_localconfig(&back, "440");
    assert_eq!(state.launch_options.as_deref(), Some("%command%"));
}

#[test]
fn strip_managed_prefix_removes_env_word() {
    assert_eq!(
        strip_managed_prefix("env KAEDE_GPU_MANAGED=1 DRI_PRIME=0 KAEDE_GPU_MANAGED_END=1 %command% -x"),
        "%command% -x"
    );
    assert_eq!(
        strip_managed_prefix("gamemoderun env KAEDE_GPU_MANAGED=1 X=1 KAEDE_GPU_MANAGED_END=1 %command%"),
        "gamemoderun %command%"
    );
    assert_eq!(
        strip_managed_prefix("myenv KAEDE_GPU_MANAGED=1 X=1 KAEDE_GPU_MANAGED_END=1 %command%"),
        "myenv %command%"
    );
}

#[test]
fn steam_case_insensitive_path() {
    let content = localconfig().replace("\"Software\"", "\"software\"").replace("\"apps\"", "\"Apps\"");
    let (out, changed) = update_localconfig_content(&content, "440", GpuChoice::Gpu(1), &[], false);
    assert!(changed);
    assert!(out.contains("DRI_PRIME=1"));
}

#[test]
fn steam_without_apps_block_unchanged() {
    let content = "\"UserLocalConfigStore\"\n{\n}\n";
    let (out, changed) = update_localconfig_content(content, "440", GpuChoice::Gpu(1), &[], false);
    assert!(!changed);
    assert_eq!(out, content);
    let state = app_state_in_localconfig(content, "440");
    assert!(!state.app_found);
    assert_eq!(state.launch_options, None);
}

#[test]
fn validation_rules() {
    assert!(validate_expected_state(None, GpuChoice::Default));
    assert!(!validate_expected_state(None, GpuChoice::Gpu(0)));
    assert!(validate_expected_state(
        Some("KAEDE_GPU_MANAGED=1 DRI_PRIME=3 KAEDE_GPU_MANAGED_END=1 %command%"),
        GpuChoice::Gpu(3)
    ));
    assert!(!validate_expected_state(
        Some("KAEDE_GPU_MANAGED=1 DRI_PRIME=3 KAEDE_GPU_MANAGED_END=1 %command%"),
        GpuChoice::Gpu(2)
    ));
    assert!(!validate_expected_state(Some("KAEDE_GPU_MANAGED=1 %command%"), GpuChoice::Default));
}

#[test]
fn outcome_over_files() {
    assert_eq!(overall_outcome(&[]), Err(PatchError::NotFound));
    let no = FileReport { matched: false, validated: false };
    let found = FileReport { matched: true, validated: false };
    let ok = FileReport { matched: true, validated: true };
    assert_eq!(overall_outcome(&[no, no]), Err(PatchError::NotFound));
    assert_eq!(overall_outcome(&[no, found]), Err(PatchError::ValidationFailure));
    assert_eq!(overall_outcome(&[found, ok]), Ok(()));
}

#[test]
fn assess_after_write() {
    let (out, _) = update_localconfig_content(&localconfig(), "440", GpuChoice::Gpu(1), &[], false);
    let report = assess_localconfig(&localconfig(), &out, "440", GpuChoice::Gpu(1));
    assert!(report.matched && report.validated);
    let report = assess_localconfig(&localconfig(), &localconfig(), "440", GpuChoice::Gpu(1));
    assert!(report.matched && !report.validated);
    let report = assess_localconfig(&localconfig(), &localconfig(), "999", GpuChoice::Default);
    assert!(!report.matched && !report.validated);
}
