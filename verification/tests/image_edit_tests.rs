use aspen::image_edit::{
    apply_ai_strengths, chat_window, deterministic_plan, edit_preflight, is_edit_image_ext, missing_required_tool,
    next_output_dir, run_warnings, should_contact_ollama, sharpen_recipe, vignette_recipe, PlanValue, CROP_WARNING,
    MAX_CHAT_CHARS, MAX_CHAT_MESSAGES,
};
use aspen::settings::{AppSettings, EditStrength};
use std::collections::HashSet;

#[test]
fn strengths_produce_distinct_recipes() {
    assert_ne!(sharpen_recipe(EditStrength::Small), sharpen_recipe(EditStrength::Medium));
    assert_ne!(sharpen_recipe(EditStrength::Medium), sharpen_recipe(EditStrength::High));
    assert_ne!(vignette_recipe(EditStrength::Small), vignette_recipe(EditStrength::Medium));
    assert_ne!(vignette_recipe(EditStrength::Medium), vignette_recipe(EditStrength::High));
}

#[test]
fn recipe_values_are_exact() {
    assert_eq!(sharpen_recipe(EditStrength::Medium), (40, 10, 35, 80));
    assert_eq!(sharpen_recipe(EditStrength::High), (55, 12, 40, 85));
    assert_eq!(vignette_recipe(EditStrength::Small), (-10, 50, 0, 50));
    assert_eq!(vignette_recipe(EditStrength::High), (-35, 40, 0, 70));
}

#[test]
fn deterministic_plan_uses_defaults_without_ai() {
    let settings = AppSettings::default();
    let plan = deterministic_plan(&settings);
    assert_eq!(plan.get("Sharpness"), Some(PlanValue::Int(40)));
    assert_eq!(plan.get("PostCropVignetteAmount"), Some(PlanValue::Int(-20)));
    assert_eq!(plan.subject_blur_strength(), Some(EditStrength::Medium));
}

#[test]
fn ai_off_path_never_selects_ollama() {
    let mut settings = AppSettings::default();
    assert!(!should_contact_ollama(&settings));
    settings.enable_ai_features = true;
    assert!(!should_contact_ollama(&settings));
    settings.use_ai_for_edit = true;
    assert!(should_contact_ollama(&settings));
}

#[test]
fn disabled_recipes_are_absent_from_plan() {
    let mut settings = AppSettings::default();
    settings.eye_sharpen = false;
    settings.vignette = false;
    settings.subject_blur = false;
    let plan = deterministic_plan(&settings);
    assert_eq!(plan.get("Sharpness"), None);
    assert_eq!(plan.get("PostCropVignetteAmount"), None);
    assert_eq!(plan.subject_blur_strength(), None);
}

#[test]
fn default_plan_lists_every_checked_recipe() {
    let plan = deterministic_plan(&AppSettings::default());
    assert_eq!(plan.get("SharpenRadius"), Some(PlanValue::F32Tenths(10)));
    assert_eq!(plan.get("PostCropVignetteStyle"), Some(PlanValue::Int(1)));
    assert_eq!(plan.get("WhiteBalance"), Some(PlanValue::Text("Auto")));
    assert_eq!(plan.get("Vibrance"), Some(PlanValue::Int(8)));
    assert_eq!(plan.get("Highlights2012"), Some(PlanValue::Int(-10)));
    assert_eq!(plan.get("Exposure2012"), Some(PlanValue::F64Tenths(0)));
    assert_eq!(plan.get("LuminanceSmoothing"), None);
    assert_eq!(plan.warnings(), &vec![CROP_WARNING.to_string()]);
    let keys: HashSet<&str> = plan.settings().iter().map(|(k, _)| k.as_str()).collect();
    assert_eq!(keys.len(), plan.settings().len());
}

#[test]
fn noise_reduction_adds_its_settings() {
    let mut settings = AppSettings::default();
    settings.noise_reduction = true;
    settings.optimal_crop = false;
    let plan = deterministic_plan(&settings);
    assert_eq!(plan.get("LuminanceSmoothing"), Some(PlanValue::Int(20)));
    assert_eq!(plan.get("ColorNoiseReduction"), Some(PlanValue::Int(25)));
    assert!(plan.warnings().is_empty());
}

#[test]
fn ai_strengths_replace_recipes() {
    let mut plan = deterministic_plan(&AppSettings::default());
    apply_ai_strengths(&mut plan, Some(EditStrength::High), Some(EditStrength::Small), None);
    assert_eq!(plan.get("Sharpness"), Some(PlanValue::Int(55)));
    assert_eq!(plan.get("SharpenRadius"), Some(PlanValue::F32Tenths(12)));
    assert_eq!(plan.get("PostCropVignetteAmount"), Some(PlanValue::Int(-10)));
    assert_eq!(plan.get("PostCropVignetteStyle"), Some(PlanValue::Int(1)));
    assert_eq!(plan.subject_blur_strength(), Some(EditStrength::Medium));
    apply_ai_strengths(&mut plan, None, None, Some(EditStrength::Small));
    assert_eq!(plan.subject_blur_strength(), Some(EditStrength::Small));
    assert_eq!(plan.get("Sharpness"), Some(PlanValue::Int(55)));
}

#[test]
fn output_folder_versions_without_overwrite() {
    let mut existing: HashSet<String> = HashSet::new();
    existing.insert("/tmp/shoot/Images-Good".to_string());
    assert_eq!(
        next_output_dir(Some("/tmp/shoot"), |p: &str| existing.contains(p)).unwrap(),
        "/tmp/shoot/Processed-Images"
    );
    existing.insert("/tmp/shoot/Processed-Images".to_string());
    assert_eq!(
        next_output_dir(Some("/tmp/shoot"), |p: &str| existing.contains(p)).unwrap(),
        "/tmp/shoot/Processed-Images-2"
    );
}

#[test]
fn output_folder_skips_every_taken_version() {
    let existing: HashSet<String> = ["Processed-Images", "Processed-Images-2", "Processed-Images-3"]
        .iter()
        .map(|n| format!("/p/{n}"))
        .collect();
    assert_eq!(next_output_dir(Some("/p"), |p: &str| existing.contains(p)).unwrap(), "/p/Processed-Images-4");
    assert!(next_output_dir(None, |_: &str| false).is_err());
    assert!(next_output_dir(Some("/p"), |_: &str| true).is_err());
}

#[test]
fn chat_context_is_bounded_by_messages_and_approximate_tokens() {
    let messages: Vec<String> = (0..30).map(|index| format!("{index}-{}", "x".repeat(2_000))).collect();
    let lengths: Vec<usize> = messages.iter().map(|m| m.len()).collect();
    let keep = chat_window(&lengths);
    let trimmed = &messages[messages.len() - keep..];
    assert!(trimmed.len() <= 20);
    let chars: usize = trimmed.iter().map(|m| m.len()).sum();
    assert!(chars <= 32_000);
}

#[test]
fn chat_window_keeps_the_latest_message_and_limits() {
    assert_eq!(chat_window(&[]), 0);
    assert_eq!(chat_window(&[100_000]), 1);
    assert_eq!(chat_window(&[10; 50]), MAX_CHAT_MESSAGES);
    assert_eq!(chat_window(&[10, 20, 30]), 3);
    // 16000 + 16000 fits exactly; a third message would not.
    assert_eq!(chat_window(&[1, 16_000, 16_000]), 2);
    assert_eq!(MAX_CHAT_CHARS, 32_000);
}

#[test]
fn edit_extensions_ignore_case() {
    assert!(is_edit_image_ext("JPG"));
    assert!(is_edit_image_ext("arw"));
    assert!(!is_edit_image_ext("txt"));
}

#[test]
fn preflight_rejects_missing_folders_and_ai_without_the_switch() {
    let mut settings = AppSettings::default();
    assert_eq!(edit_preflight(false, "/x", &settings), Err("ASPEN-FS-SOURCE: not a directory: /x".to_string()));
    assert_eq!(edit_preflight(true, "/x", &settings), Ok(()));
    settings.use_ai_for_edit = true;
    assert_eq!(
        edit_preflight(true, "/x", &settings),
        Err("ASPEN-OLLAMA-DISABLED: enable AI features before using AI".to_string())
    );
    settings.enable_ai_features = true;
    assert_eq!(edit_preflight(true, "/x", &settings), Ok(()));
}

#[test]
fn required_tools_are_checked_in_order() {
    let all: Vec<String> =
        ["list_photos", "import_photos", "set_develop_settings", "export_photos"].iter().map(|s| s.to_string()).collect();
    assert_eq!(missing_required_tool(&all), None);
    assert_eq!(missing_required_tool(&all[2..]), Some("import_photos"));
    let no_develop = vec!["import_photos".to_string(), "export_photos".to_string()];
    assert_eq!(missing_required_tool(&no_develop), Some("set_develop_settings"));
    assert_eq!(missing_required_tool(&all[..3]), Some("export_photos"));
}

#[test]
fn run_warnings_mention_the_skipped_subject_blur() {
    let plan = deterministic_plan(&AppSettings::default());
    assert_eq!(
        run_warnings(&plan),
        vec![
            CROP_WARNING.to_string(),
            "Subject blur (Medium) skipped: Lightroom MCP 0.9 does not expose Lens Blur or subject masks.".to_string()
        ]
    );
    let mut settings = AppSettings::default();
    settings.subject_blur = false;
    settings.optimal_crop = false;
    assert!(run_warnings(&deterministic_plan(&settings)).is_empty());
}
