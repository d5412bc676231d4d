use aspen::settings::{
    default_extensions, AppSettings, DuplicateStrength, EditStrength, FileAction, PerfProfile, SceneMode,
    DEFAULT_TEMPERATURE_BITS, GOOD_DIR, REJECTED_DIR,
};

#[test]
fn v2_defaults_preserve_bulk_first_workflow() {
    let settings = AppSettings::default();
    assert!(settings.continue_to_image_editing);
    assert!(!settings.enable_ai_features);
    assert!(!settings.use_ai_for_dedup);
    assert!(!settings.use_ai_for_edit);
    assert!(settings.eye_sharpen);
    assert_eq!(settings.eye_sharpen_strength, EditStrength::Medium);
    assert!(settings.vignette);
    assert!(settings.subject_blur);
    assert!(!settings.noise_reduction);
    assert_eq!(settings.ollama_model, "");
}

#[test]
fn default_scene_and_actions() {
    let s = AppSettings::default();
    assert_eq!(s.scene_mode, SceneMode::Portrait);
    assert_eq!(s.file_action, FileAction::Copy);
    assert_eq!(s.perf_profile, PerfProfile::Medium);
    assert_eq!(s.duplicate_strength, DuplicateStrength::Balanced);
    assert_eq!(f32::from_bits(s.ollama_temperature_bits), 0.2f32);
    assert_eq!(s.ollama_temperature_bits, DEFAULT_TEMPERATURE_BITS);
    assert_eq!(s.enabled_extensions, default_extensions());
}

#[test]
fn default_extensions_cover_raw_and_raster() {
    let e = default_extensions();
    assert_eq!(e.len(), 20);
    assert_eq!(e[0], "arw");
    assert!(e.contains(&"jpg".to_string()));
    assert!(e.contains(&"heif".to_string()));
}

#[test]
fn strengths_map_to_thresholds() {
    assert_eq!(DuplicateStrength::Strict.hamming_threshold(), 3);
    assert_eq!(DuplicateStrength::Balanced.hamming_threshold(), 7);
    assert_eq!(DuplicateStrength::Loose.hamming_threshold(), 12);
}

#[test]
fn profiles_bound_threads_and_previews() {
    assert_eq!(PerfProfile::Low.max_threads(Some(16)), 4);
    assert_eq!(PerfProfile::Low.max_threads(Some(4)), 1);
    assert_eq!(PerfProfile::Medium.max_threads(Some(16)), 12);
    assert_eq!(PerfProfile::Medium.max_threads(Some(1)), 2);
    assert_eq!(PerfProfile::High.max_threads(Some(16)), 16);
    assert_eq!(PerfProfile::High.max_threads(None), 4);
    assert_eq!(PerfProfile::High.max_threads(Some(1)), 2);
    assert_eq!(PerfProfile::Low.preview_max_edge(), 512);
    assert_eq!(PerfProfile::Medium.preview_max_edge(), 768);
    assert_eq!(PerfProfile::High.preview_max_edge(), 1024);
    assert!(PerfProfile::High.confirm_near_dupes());
    assert!(!PerfProfile::Medium.confirm_near_dupes());
    assert!(!PerfProfile::Low.face_scoring());
}

#[test]
fn output_folder_names() {
    assert_eq!(GOOD_DIR, "Images-Good");
    assert_eq!(REJECTED_DIR, "Rejected");
}
