//! User-facing settings: scene, file action, performance, duplicate and
//! edit strengths, and the full settings record with its defaults.

use vstd::prelude::*;

verus! {

/// Folder that receives the kept images.
pub const GOOD_DIR: &'static str = "Images-Good";

/// Folder that receives the rejected duplicates.
pub const REJECTED_DIR: &'static str = "Rejected";

/// Where the documentation lives.
pub const DOCS_URL: &'static str = "https://github.com/aniruddh02/aspen-editor#readme";

#[derive(Debug, Clone, Copy, PartialEq, Eq, Structural)]
pub enum SceneMode {
    Portrait,
    Landscape,
}

impl Default for SceneMode {
    fn default() -> (m: Self)
        ensures
            m == SceneMode::Portrait,
    {
        SceneMode::Portrait
    }
}

#[derive(Debug, Clone, Copy, PartialEq, Eq, Structural)]
pub enum FileAction {
    Move,
    Copy,
}

impl Default for FileAction {
    fn default() -> (a: Self)
        ensures
            a == FileAction::Copy,
    {
        FileAction::Copy
    }
}

#[derive(Debug, Clone, Copy, PartialEq, Eq, Structural)]
pub enum PerfProfile {
    Low,
    Medium,
    High,
}

impl Default for PerfProfile {
    fn default() -> (p: Self)
        ensures
            p == PerfProfile::Medium,
    {
        PerfProfile::Medium
    }
}

#[derive(Debug, Clone, Copy, PartialEq, Eq, Structural)]
pub enum DuplicateStrength {
    Loose,
    Balanced,
    Strict,
}

impl Default for DuplicateStrength {
    fn default() -> (s: Self)
        ensures
            s == DuplicateStrength::Balanced,
    {
        DuplicateStrength::Balanced
    }
}

/// The pHash distance at or below which two images count as near-duplicates.
pub open spec fn threshold_of(s: DuplicateStrength) -> u32 {
    match s {
        DuplicateStrength::Loose => 12,
        DuplicateStrength::Balanced => 7,
        DuplicateStrength::Strict => 3,
    }
}

impl DuplicateStrength {
    /// Hamming distance threshold for pHash clustering.
    pub fn hamming_threshold(self) -> (t: u32)
        ensures
            t == threshold_of(self),
    {
        match self {
            DuplicateStrength::Loose => 12,
            DuplicateStrength::Balanced => 7,
            DuplicateStrength::Strict => 3,
        }
    }
}

impl PerfProfile {
    /// Worker threads for a machine reporting `available` hardware threads
    /// (four when the count is unknown).
    pub fn max_threads(self, available: Option<usize>) -> (n: usize)
        ensures
            ({
                let cpus: int = match available {
                    Some(c) => c as int,
                    None => 4,
                };
                n == match self {
                    PerfProfile::Low => if cpus / 4 > 1 { cpus / 4 } else { 1 },
                    PerfProfile::Medium => if (cpus * 3) / 4 > 2 { (cpus * 3) / 4 } else { 2 },
                    PerfProfile::High => if cpus > 2 { cpus } else { 2 },
                }
            }),
    {
        let cpus: usize = match available {
            Some(c) => c,
            None => 4,
        };
        match self {
            PerfProfile::Low => {
                let q = cpus / 4;
                if q > 1 {
                    q
                } else {
                    1
                }
            },
            PerfProfile::Medium => {
                let q = ((cpus as u128 * 3) / 4) as usize;
                if q > 2 {
                    q
                } else {
                    2
                }
            },
            PerfProfile::High => {
                if cpus > 2 {
                    cpus
                } else {
                    2
                }
            },
        }
    }

    /// Previews decoded per batch.
    pub fn preview_batch(self) -> (n: usize)
        ensures
            n == match self {
                PerfProfile::Low => 2usize,
                PerfProfile::Medium => 4usize,
                PerfProfile::High => 8usize,
            },
    {
        match self {
            PerfProfile::Low => 2,
            PerfProfile::Medium => 4,
            PerfProfile::High => 8,
        }
    }

    /// Whether face metrics are computed.
    pub fn face_scoring(self) -> (b: bool)
        ensures
            b == (self != PerfProfile::Low),
    {
        !matches!(self, PerfProfile::Low)
    }

    /// Whether a dHash must confirm pHash near-duplicates.
    pub fn confirm_near_dupes(self) -> (b: bool)
        ensures
            b == (self == PerfProfile::High),
    {
        matches!(self, PerfProfile::High)
    }

    /// Longest preview edge, in pixels, used for hashing and scoring.
    pub fn preview_max_edge(self) -> (n: u32)
        ensures
            n == match self {
                PerfProfile::Low => 512u32,
                PerfProfile::Medium => 768u32,
                PerfProfile::High => 1024u32,
            },
    {
        match self {
            PerfProfile::Low => 512,
            PerfProfile::Medium => 768,
            PerfProfile::High => 1024,
        }
    }
}

#[derive(Debug, Clone, Copy, PartialEq, Eq, Structural)]
pub enum EditStrength {
    Small,
    Medium,
    High,
}

impl Default for EditStrength {
    fn default() -> (s: Self)
        ensures
            s == EditStrength::Medium,
    {
        EditStrength::Medium
    }
}

} // verus!

verus! {

/// Every extension Aspen knows how to open, in the order the settings list them.
pub open spec fn default_extension_names() -> Seq<Seq<char>> {
    seq![
        "arw"@, "srf"@, "sr2"@, "nef"@, "nrw"@, "cr2"@, "cr3"@, "crw"@, "raf"@, "dng"@,
        "jpg"@, "jpeg"@, "png"@, "tif"@, "tiff"@, "webp"@, "bmp"@, "gif"@, "heic"@, "heif"@,
    ]
}

/// The extensions enabled out of the box.
pub fn default_extensions() -> (v: Vec<String>)
    ensures
        v@.len() == default_extension_names().len(),
        forall|i: int| 0 <= i < v@.len() ==> #[trigger] v@[i]@ == default_extension_names()[i],
{
    let mut v: Vec<String> = Vec::new();
    v.push(String::from_str("arw"));
    v.push(String::from_str("srf"));
    v.push(String::from_str("sr2"));
    v.push(String::from_str("nef"));
    v.push(String::from_str("nrw"));
    v.push(String::from_str("cr2"));
    v.push(String::from_str("cr3"));
    v.push(String::from_str("crw"));
    v.push(String::from_str("raf"));
    v.push(String::from_str("dng"));
    v.push(String::from_str("jpg"));
    v.push(String::from_str("jpeg"));
    v.push(String::from_str("png"));
    v.push(String::from_str("tif"));
    v.push(String::from_str("tiff"));
    v.push(String::from_str("webp"));
    v.push(String::from_str("bmp"));
    v.push(String::from_str("gif"));
    v.push(String::from_str("heic"));
    v.push(String::from_str("heif"));
    v
}

/// Every persisted setting. The sampling temperature is carried as the bit
/// pattern of its IEEE-754 single-precision value.
#[derive(Debug, Clone)]
pub struct AppSettings {
    pub scene_mode: SceneMode,
    pub file_action: FileAction,
    pub perf_profile: PerfProfile,
    pub duplicate_strength: DuplicateStrength,
    pub include_subfolders: bool,
    pub enabled_extensions: Vec<String>,
    pub continue_to_image_editing: bool,
    pub last_images_good_path: String,
    pub enable_ai_features: bool,
    pub use_ai_for_dedup: bool,
    pub use_ai_for_edit: bool,
    pub eye_sharpen: bool,
    pub eye_sharpen_strength: EditStrength,
    pub vignette: bool,
    pub vignette_strength: EditStrength,
    pub subject_blur: bool,
    pub subject_blur_strength: EditStrength,
    pub optimal_crop: bool,
    pub white_balance: bool,
    pub color_tone: bool,
    pub exposure_normalize: bool,
    pub noise_reduction: bool,
    pub ollama_model: String,
    pub ollama_temperature_bits: u32,
    pub chat_auto_clear_after_run: bool,
    pub chat_auto_clear_on_leave: bool,
    pub chat_auto_clear_on_ai_off: bool,
    pub verbose_logging: bool,
    pub include_full_paths_in_logs: bool,
    pub include_chat_prompts_in_logs: bool,
    /// Write a per-run record of every quality metric and ranking decision.
    pub benchmark_logging: bool,
}

/// Bit pattern of the default sampling temperature, 0.2.
pub const DEFAULT_TEMPERATURE_BITS: u32 = 0x3E4C_CCCD;

impl Default for AppSettings {
    /// The bulk-first defaults: portrait scene, copy, medium performance,
    /// balanced strength, recipes on, AI off.
    fn default() -> (s: Self)
        ensures
            s.scene_mode == SceneMode::Portrait,
            s.file_action == FileAction::Copy,
            s.perf_profile == PerfProfile::Medium,
            s.duplicate_strength == DuplicateStrength::Balanced,
            s.include_subfolders,
            s.enabled_extensions@.len() == default_extension_names().len(),
            forall|i: int|
                0 <= i < s.enabled_extensions@.len() ==> #[trigger] s.enabled_extensions@[i]@
                    == default_extension_names()[i],
            s.continue_to_image_editing,
            s.last_images_good_path@ == Seq::<char>::empty(),
            !s.enable_ai_features,
            !s.use_ai_for_dedup,
            !s.use_ai_for_edit,
            s.eye_sharpen,
            s.eye_sharpen_strength == EditStrength::Medium,
            s.vignette,
            s.vignette_strength == EditStrength::Medium,
            s.subject_blur,
            s.subject_blur_strength == EditStrength::Medium,
            s.optimal_crop,
            s.white_balance,
            s.color_tone,
            s.exposure_normalize,
            !s.noise_reduction,
            s.ollama_model@ == Seq::<char>::empty(),
            s.ollama_temperature_bits == DEFAULT_TEMPERATURE_BITS,
            s.chat_auto_clear_after_run,
            s.chat_auto_clear_on_leave,
            s.chat_auto_clear_on_ai_off,
            !s.verbose_logging,
            !s.include_full_paths_in_logs,
            !s.include_chat_prompts_in_logs,
            !s.benchmark_logging,
    {
        AppSettings {
            scene_mode: SceneMode::Portrait,
            file_action: FileAction::Copy,
            perf_profile: PerfProfile::Medium,
            duplicate_strength: DuplicateStrength::Balanced,
            include_subfolders: true,
            enabled_extensions: default_extensions(),
            continue_to_image_editing: true,
            last_images_good_path: String::new(),
            enable_ai_features: false,
            use_ai_for_dedup: false,
            use_ai_for_edit: false,
            eye_sharpen: true,
            eye_sharpen_strength: EditStrength::Medium,
            vignette: true,
            vignette_strength: EditStrength::Medium,
            subject_blur: true,
            subject_blur_strength: EditStrength::Medium,
            optimal_crop: true,
            white_balance: true,
            color_tone: true,
            exposure_normalize: true,
            noise_reduction: false,
            ollama_model: String::new(),
            ollama_temperature_bits: DEFAULT_TEMPERATURE_BITS,
            chat_auto_clear_after_run: true,
            chat_auto_clear_on_leave: true,
            chat_auto_clear_on_ai_off: true,
            verbose_logging: false,
            include_full_paths_in_logs: false,
            include_chat_prompts_in_logs: false,
            benchmark_logging: false,
        }
    }
}

} // verus!
