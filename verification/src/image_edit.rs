//! The Lightroom edit plan, output folder versioning and chat trimming.

use vstd::prelude::*;
use crate::assoc::{pairs_map, distinct_keys, lemma_pairs_lookup, pairs_position, pairs_insert};
use crate::settings::{AppSettings, EditStrength};
use crate::path_text::{path_join, join_path};
use crate::text::{decimal, push_decimal, lower_seq, ascii_lower, str_eq};
use crate::paths::reported;
use crate::settings::default_extension_names;

verus! {

/// What an Image Editing run is asked to do: the folder to edit, the
/// settings, and the user's feedback for the AI planner.
#[derive(Debug, Clone)]
pub struct ImageEditRequest {
    pub source_path: String,
    pub settings: AppSettings,
    pub feedback: String,
}

/// Progress of an Image Editing run.
#[derive(Debug, Clone)]
pub struct ImageEditProgress {
    pub run_id: String,
    pub stage: String,
    pub message: String,
    pub current: usize,
    pub total: usize,
    pub level: String,
}

/// Outcome of an Image Editing run.
#[derive(Debug, Clone)]
pub struct ImageEditResult {
    pub run_id: String,
    pub source_path: String,
    pub output_path: String,
    pub processed: usize,
    pub warnings: Vec<String>,
    pub used_ai: bool,
}

/// An installed Ollama model.
#[derive(Debug, Clone)]
pub struct OllamaModel {
    pub name: String,
}

/// A Develop setting value. Decimal values are held in tenths and sent to
/// Lightroom as single- or double-precision numbers.
#[derive(Debug, Clone, Copy, PartialEq, Eq)]
pub enum PlanValue {
    Int(i64),
    F32Tenths(i64),
    F64Tenths(i64),
    Text(&'static str),
}

/// Amount, radius (tenths of a pixel), detail and masking for eye sharpening.
pub open spec fn sharpen_values(s: EditStrength) -> (i32, i32, i32, i32) {
    match s {
        EditStrength::Small => (25, 10, 25, 70),
        EditStrength::Medium => (40, 10, 35, 80),
        EditStrength::High => (55, 12, 40, 85),
    }
}

/// Amount, midpoint, roundness and feather for the post-crop vignette.
pub open spec fn vignette_values(s: EditStrength) -> (i32, i32, i32, i32) {
    match s {
        EditStrength::Small => (-10i32, 50i32, 0i32, 50i32),
        EditStrength::Medium => (-20i32, 45i32, 0i32, 60i32),
        EditStrength::High => (-35i32, 40i32, 0i32, 70i32),
    }
}

/// The sharpening recipe for a strength.
pub fn sharpen_recipe(strength: EditStrength) -> (r: (i32, i32, i32, i32))
    ensures
        r == sharpen_values(strength),
{
    match strength {
        EditStrength::Small => (25, 10, 25, 70),
        EditStrength::Medium => (40, 10, 35, 80),
        EditStrength::High => (55, 12, 40, 85),
    }
}

/// The vignette recipe for a strength.
pub fn vignette_recipe(strength: EditStrength) -> (r: (i32, i32, i32, i32))
    ensures
        r == vignette_values(strength),
{
    match strength {
        EditStrength::Small => (-10, 50, 0, 50),
        EditStrength::Medium => (-20, 45, 0, 60),
        EditStrength::High => (-35, 40, 0, 70),
    }
}

/// The Develop settings of the sharpening recipe.
pub open spec fn sharpen_settings(s: EditStrength) -> Map<Seq<char>, PlanValue> {
    let r = sharpen_values(s);
    map![
        "Sharpness"@ => PlanValue::Int(r.0 as i64),
        "SharpenRadius"@ => PlanValue::F32Tenths(r.1 as i64),
        "SharpenDetail"@ => PlanValue::Int(r.2 as i64),
        "SharpenEdgeMasking"@ => PlanValue::Int(r.3 as i64),
    ]
}

/// The Develop settings of the vignette recipe, without its style.
pub open spec fn vignette_settings(s: EditStrength) -> Map<Seq<char>, PlanValue> {
    let r = vignette_values(s);
    map![
        "PostCropVignetteAmount"@ => PlanValue::Int(r.0 as i64),
        "PostCropVignetteMidpoint"@ => PlanValue::Int(r.1 as i64),
        "PostCropVignetteRoundness"@ => PlanValue::Int(r.2 as i64),
        "PostCropVignetteFeather"@ => PlanValue::Int(r.3 as i64),
    ]
}

/// `m` when `on`, otherwise nothing.
pub open spec fn when(on: bool, m: Map<Seq<char>, PlanValue>) -> Map<Seq<char>, PlanValue> {
    if on {
        m
    } else {
        Map::empty()
    }
}

/// The Develop settings that the checked recipes ask for.
pub open spec fn planned_settings(s: AppSettings) -> Map<Seq<char>, PlanValue> {
    when(s.eye_sharpen, sharpen_settings(s.eye_sharpen_strength)).union_prefer_right(
        when(
            s.vignette,
            vignette_settings(s.vignette_strength).insert("PostCropVignetteStyle"@, PlanValue::Int(1)),
        ),
    ).union_prefer_right(when(s.white_balance, map!["WhiteBalance"@ => PlanValue::Text("Auto")])).union_prefer_right(
        when(s.color_tone, map!["Contrast2012"@ => PlanValue::Int(8), "Vibrance"@ => PlanValue::Int(8)]),
    ).union_prefer_right(
        when(
            s.exposure_normalize,
            map![
                "Exposure2012"@ => PlanValue::F64Tenths(0),
                "Highlights2012"@ => PlanValue::Int(-10i64),
                "Shadows2012"@ => PlanValue::Int(10),
            ],
        ),
    ).union_prefer_right(
        when(
            s.noise_reduction,
            map!["LuminanceSmoothing"@ => PlanValue::Int(20), "ColorNoiseReduction"@ => PlanValue::Int(25)],
        ),
    )
}

/// The warning recorded when optimal crop is requested.
pub const CROP_WARNING: &'static str = "Optimal crop requested; Lightroom MCP has no composition-analysis tool, so source crop is preserved.";

/// A Lightroom edit plan: Develop settings by name, the requested subject
/// blur, and warnings for what cannot be applied.
///
/// The settings are `(name, value)` pairs with no name twice, read as a map
/// through `settings_map`: vstd gives a `BTreeMap` keyed by `String` no usable
/// contract (it models the ordering of integer keys only), so what a plan
/// holds after a setting is written could not be stated over one.
#[derive(Debug)]
pub struct EditPlan {
    settings: Vec<(String, PlanValue)>,
    subject_blur_strength: Option<EditStrength>,
    warnings: Vec<String>,
}

impl EditPlan {
    /// The Develop settings as a map from name to value.
    pub closed spec fn settings_map(&self) -> Map<Seq<char>, PlanValue> {
        pairs_map(self.settings@)
    }

    pub closed spec fn blur(&self) -> Option<EditStrength> {
        self.subject_blur_strength
    }

    pub closed spec fn warning_texts(&self) -> Seq<Seq<char>> {
        self.warnings@.map_values(|w: String| w@)
    }

    #[verifier::type_invariant]
    closed spec fn inv(&self) -> bool {
        distinct_keys(self.settings@)
    }

    /// The value planned for a Develop setting.
    pub fn get(&self, key: &str) -> (v: Option<PlanValue>)
        ensures
            v matches Some(x) ==> self.settings_map().contains_key(key@) && self.settings_map()[key@] == x,
            v is None ==> !self.settings_map().contains_key(key@),
    {
        proof {
            use_type_invariant(self);
            lemma_pairs_lookup(self.settings@, key@);
        }
        match pairs_position(&self.settings, key) {
            Some(i) => Some(self.settings[i].1),
            None => None,
        }
    }

    /// The `(name, value)` pairs, each name once.
    pub fn settings(&self) -> (v: &Vec<(String, PlanValue)>)
        ensures
            distinct_keys(v@),
            pairs_map(v@) == self.settings_map(),
    {
        proof {
            use_type_invariant(self);
        }
        &self.settings
    }

    /// The subject blur the plan asks for.
    pub fn subject_blur_strength(&self) -> (s: Option<EditStrength>)
        ensures
            s == self.blur(),
    {
        self.subject_blur_strength
    }

    /// Warnings about requested edits that are not applied.
    pub fn warnings(&self) -> (w: &Vec<String>)
        ensures
            w@.map_values(|x: String| x@) == self.warning_texts(),
    {
        &self.warnings
    }

    fn set(&mut self, key: &str, value: PlanValue)
        ensures
            final(self).settings_map() == old(self).settings_map().insert(key@, value),
            final(self).blur() == old(self).blur(),
            final(self).warning_texts() == old(self).warning_texts(),
    {
        proof {
            use_type_invariant(&*self);
        }
        let mut es: Vec<(String, PlanValue)> = Vec::new();
        std::mem::swap(&mut es, &mut self.settings);
        pairs_insert(&mut es, key, value);
        self.settings = es;
    }

    fn set_sharpen(&mut self, strength: EditStrength)
        ensures
            final(self).settings_map() == old(self).settings_map().union_prefer_right(sharpen_settings(strength)),
            final(self).blur() == old(self).blur(),
            final(self).warning_texts() == old(self).warning_texts(),
    {
        let (amount, radius, detail, masking) = sharpen_recipe(strength);
        self.set("Sharpness", PlanValue::Int(amount as i64));
        self.set("SharpenRadius", PlanValue::F32Tenths(radius as i64));
        self.set("SharpenDetail", PlanValue::Int(detail as i64));
        self.set("SharpenEdgeMasking", PlanValue::Int(masking as i64));
        proof {
            assert(self.settings_map() =~= old(self).settings_map().union_prefer_right(sharpen_settings(strength)));
        }
    }

    fn set_vignette(&mut self, strength: EditStrength)
        ensures
            final(self).settings_map() == old(self).settings_map().union_prefer_right(vignette_settings(strength)),
            final(self).blur() == old(self).blur(),
            final(self).warning_texts() == old(self).warning_texts(),
    {
        let (amount, midpoint, roundness, feather) = vignette_recipe(strength);
        self.set("PostCropVignetteAmount", PlanValue::Int(amount as i64));
        self.set("PostCropVignetteMidpoint", PlanValue::Int(midpoint as i64));
        self.set("PostCropVignetteRoundness", PlanValue::Int(roundness as i64));
        self.set("PostCropVignetteFeather", PlanValue::Int(feather as i64));
        proof {
            assert(self.settings_map() =~= old(self).settings_map().union_prefer_right(vignette_settings(strength)));
        }
    }
}

/// The plan built from the checked recipes alone, without AI.
pub fn deterministic_plan(settings: &AppSettings) -> (plan: EditPlan)
    ensures
        plan.settings_map() == planned_settings(*settings),
        plan.blur() == if settings.subject_blur {
            Some(settings.subject_blur_strength)
        } else {
            None
        },
        plan.warning_texts() == if settings.optimal_crop {
            seq![CROP_WARNING@]
        } else {
            Seq::<Seq<char>>::empty()
        },
{
    let mut warnings: Vec<String> = Vec::new();
    if settings.optimal_crop {
        warnings.push(String::from_str(CROP_WARNING));
    }
    let mut plan = EditPlan {
        settings: Vec::new(),
        subject_blur_strength: if settings.subject_blur {
            Some(settings.subject_blur_strength)
        } else {
            None
        },
        warnings,
    };
    let ghost m0 = plan.settings_map();
    proof {
        assert(m0 =~= Map::<Seq<char>, PlanValue>::empty());
        assert(plan.warning_texts() =~= if settings.optimal_crop {
            seq![CROP_WARNING@]
        } else {
            Seq::<Seq<char>>::empty()
        });
    }
    if settings.eye_sharpen {
        plan.set_sharpen(settings.eye_sharpen_strength);
    }
    let ghost m1 = plan.settings_map();
    proof {
        assert(m1 =~= when(settings.eye_sharpen, sharpen_settings(settings.eye_sharpen_strength)));
    }
    if settings.vignette {
        plan.set_vignette(settings.vignette_strength);
        plan.set("PostCropVignetteStyle", PlanValue::Int(1));
    }
    let ghost m2 = plan.settings_map();
    proof {
        assert(m2 =~= m1.union_prefer_right(
            when(
                settings.vignette,
                vignette_settings(settings.vignette_strength).insert("PostCropVignetteStyle"@, PlanValue::Int(1)),
            ),
        ));
    }
    if settings.white_balance {
        plan.set("WhiteBalance", PlanValue::Text("Auto"));
    }
    let ghost m3 = plan.settings_map();
    proof {
        assert(m3 =~= m2.union_prefer_right(when(settings.white_balance, map!["WhiteBalance"@ => PlanValue::Text("Auto")])));
    }
    if settings.color_tone {
        plan.set("Contrast2012", PlanValue::Int(8));
        plan.set("Vibrance", PlanValue::Int(8));
    }
    let ghost m4 = plan.settings_map();
    proof {
        assert(m4 =~= m3.union_prefer_right(
            when(settings.color_tone, map!["Contrast2012"@ => PlanValue::Int(8), "Vibrance"@ => PlanValue::Int(8)]),
        ));
    }
    if settings.exposure_normalize {
        plan.set("Exposure2012", PlanValue::F64Tenths(0));
        plan.set("Highlights2012", PlanValue::Int(-10));
        plan.set("Shadows2012", PlanValue::Int(10));
    }
    let ghost m5 = plan.settings_map();
    proof {
        assert(m5 =~= m4.union_prefer_right(
            when(
                settings.exposure_normalize,
                map![
                    "Exposure2012"@ => PlanValue::F64Tenths(0),
                    "Highlights2012"@ => PlanValue::Int(-10i64),
                    "Shadows2012"@ => PlanValue::Int(10),
                ],
            ),
        ));
    }
    if settings.noise_reduction {
        plan.set("LuminanceSmoothing", PlanValue::Int(20));
        plan.set("ColorNoiseReduction", PlanValue::Int(25));
    }
    proof {
        assert(plan.settings_map() =~= m5.union_prefer_right(
            when(
                settings.noise_reduction,
                map!["LuminanceSmoothing"@ => PlanValue::Int(20), "ColorNoiseReduction"@ => PlanValue::Int(25)],
            ),
        ));
    }
    plan
}


/// Each recipe's Develop settings are planned exactly when its checkbox is
/// on, with the recipe's values, and nothing else is planned: unchecking
/// White balance plans no `WhiteBalance`, unchecking Eye sharpening plans no
/// sharpening, and so on.
pub proof fn law_plan_follows_checkboxes(s: AppSettings)
    ensures
        planned_settings(s).contains_key("Sharpness"@) == s.eye_sharpen,
        s.eye_sharpen ==> planned_settings(s)["Sharpness"@] == PlanValue::Int(sharpen_values(s.eye_sharpen_strength).0 as i64),
        planned_settings(s).contains_key("SharpenRadius"@) == s.eye_sharpen,
        s.eye_sharpen ==> planned_settings(s)["SharpenRadius"@] == PlanValue::F32Tenths(sharpen_values(s.eye_sharpen_strength).1 as i64),
        planned_settings(s).contains_key("SharpenDetail"@) == s.eye_sharpen,
        s.eye_sharpen ==> planned_settings(s)["SharpenDetail"@] == PlanValue::Int(sharpen_values(s.eye_sharpen_strength).2 as i64),
        planned_settings(s).contains_key("SharpenEdgeMasking"@) == s.eye_sharpen,
        s.eye_sharpen ==> planned_settings(s)["SharpenEdgeMasking"@] == PlanValue::Int(sharpen_values(s.eye_sharpen_strength).3 as i64),
        planned_settings(s).contains_key("PostCropVignetteAmount"@) == s.vignette,
        s.vignette ==> planned_settings(s)["PostCropVignetteAmount"@] == PlanValue::Int(vignette_values(s.vignette_strength).0 as i64),
        planned_settings(s).contains_key("PostCropVignetteMidpoint"@) == s.vignette,
        s.vignette ==> planned_settings(s)["PostCropVignetteMidpoint"@] == PlanValue::Int(vignette_values(s.vignette_strength).1 as i64),
        planned_settings(s).contains_key("PostCropVignetteRoundness"@) == s.vignette,
        s.vignette ==> planned_settings(s)["PostCropVignetteRoundness"@] == PlanValue::Int(vignette_values(s.vignette_strength).2 as i64),
        planned_settings(s).contains_key("PostCropVignetteFeather"@) == s.vignette,
        s.vignette ==> planned_settings(s)["PostCropVignetteFeather"@] == PlanValue::Int(vignette_values(s.vignette_strength).3 as i64),
        planned_settings(s).contains_key("PostCropVignetteStyle"@) == s.vignette,
        s.vignette ==> planned_settings(s)["PostCropVignetteStyle"@] == PlanValue::Int(1),
        planned_settings(s).contains_key("WhiteBalance"@) == s.white_balance,
        s.white_balance ==> planned_settings(s)["WhiteBalance"@] == PlanValue::Text("Auto"),
        planned_settings(s).contains_key("Contrast2012"@) == s.color_tone,
        s.color_tone ==> planned_settings(s)["Contrast2012"@] == PlanValue::Int(8),
        planned_settings(s).contains_key("Vibrance"@) == s.color_tone,
        s.color_tone ==> planned_settings(s)["Vibrance"@] == PlanValue::Int(8),
        planned_settings(s).contains_key("Exposure2012"@) == s.exposure_normalize,
        s.exposure_normalize ==> planned_settings(s)["Exposure2012"@] == PlanValue::F64Tenths(0),
        planned_settings(s).contains_key("Highlights2012"@) == s.exposure_normalize,
        s.exposure_normalize ==> planned_settings(s)["Highlights2012"@] == PlanValue::Int(-10i64),
        planned_settings(s).contains_key("Shadows2012"@) == s.exposure_normalize,
        s.exposure_normalize ==> planned_settings(s)["Shadows2012"@] == PlanValue::Int(10),
        planned_settings(s).contains_key("LuminanceSmoothing"@) == s.noise_reduction,
        s.noise_reduction ==> planned_settings(s)["LuminanceSmoothing"@] == PlanValue::Int(20),
        planned_settings(s).contains_key("ColorNoiseReduction"@) == s.noise_reduction,
        s.noise_reduction ==> planned_settings(s)["ColorNoiseReduction"@] == PlanValue::Int(25),
        forall|k: Seq<char>|
            #[trigger] planned_settings(s).contains_key(k) ==> {
                ||| k == "Sharpness"@
                ||| k == "SharpenRadius"@
                ||| k == "SharpenDetail"@
                ||| k == "SharpenEdgeMasking"@
                ||| k == "PostCropVignetteAmount"@
                ||| k == "PostCropVignetteMidpoint"@
                ||| k == "PostCropVignetteRoundness"@
                ||| k == "PostCropVignetteFeather"@
                ||| k == "PostCropVignetteStyle"@
                ||| k == "WhiteBalance"@
                ||| k == "Contrast2012"@
                ||| k == "Vibrance"@
                ||| k == "Exposure2012"@
                ||| k == "Highlights2012"@
                ||| k == "Shadows2012"@
                ||| k == "LuminanceSmoothing"@
                ||| k == "ColorNoiseReduction"@
            },
{
    lemma_plan_key_names();
    let m1 = when(s.eye_sharpen, sharpen_settings(s.eye_sharpen_strength));
    let m2 = when(s.vignette, vignette_settings(s.vignette_strength).insert("PostCropVignetteStyle"@, PlanValue::Int(1)));
    let m3 = when(s.white_balance, map!["WhiteBalance"@ => PlanValue::Text("Auto")]);
    let m4 = when(s.color_tone, map!["Contrast2012"@ => PlanValue::Int(8), "Vibrance"@ => PlanValue::Int(8)]);
    let m5 = when(
        s.exposure_normalize,
        map![
            "Exposure2012"@ => PlanValue::F64Tenths(0),
            "Highlights2012"@ => PlanValue::Int(-10i64),
            "Shadows2012"@ => PlanValue::Int(10),
        ],
    );
    let m6 = when(
        s.noise_reduction,
        map!["LuminanceSmoothing"@ => PlanValue::Int(20), "ColorNoiseReduction"@ => PlanValue::Int(25)],
    );
    assert(planned_settings(s) == m1.union_prefer_right(m2).union_prefer_right(m3).union_prefer_right(m4).union_prefer_right(
        m5,
    ).union_prefer_right(m6));
}

/// The names of the recipes' Develop settings, told apart by length or by one character.
proof fn lemma_plan_key_names()
    ensures
        "Sharpness"@.len() == 9,
        "SharpenRadius"@.len() == 13,
        "SharpenDetail"@.len() == 13,
        "SharpenEdgeMasking"@.len() == 18,
        "PostCropVignetteAmount"@.len() == 22,
        "PostCropVignetteMidpoint"@.len() == 24,
        "PostCropVignetteRoundness"@.len() == 25,
        "PostCropVignetteFeather"@.len() == 23,
        "PostCropVignetteStyle"@.len() == 21,
        "WhiteBalance"@.len() == 12,
        "Contrast2012"@.len() == 12,
        "Vibrance"@.len() == 8,
        "Exposure2012"@.len() == 12,
        "Highlights2012"@.len() == 14,
        "Shadows2012"@.len() == 11,
        "LuminanceSmoothing"@.len() == 18,
        "ColorNoiseReduction"@.len() == 19,
        "SharpenRadius"@[7] != "SharpenDetail"@[7],
        "WhiteBalance"@[0] != "Contrast2012"@[0],
        "WhiteBalance"@[0] != "Exposure2012"@[0],
        "Contrast2012"@[0] != "Exposure2012"@[0],
        "SharpenEdgeMasking"@[0] != "LuminanceSmoothing"@[0],
{
    reveal_strlit("Sharpness");
    reveal_strlit("SharpenRadius");
    reveal_strlit("SharpenDetail");
    reveal_strlit("SharpenEdgeMasking");
    reveal_strlit("PostCropVignetteAmount");
    reveal_strlit("PostCropVignetteMidpoint");
    reveal_strlit("PostCropVignetteRoundness");
    reveal_strlit("PostCropVignetteFeather");
    reveal_strlit("PostCropVignetteStyle");
    reveal_strlit("WhiteBalance");
    reveal_strlit("Contrast2012");
    reveal_strlit("Vibrance");
    reveal_strlit("Exposure2012");
    reveal_strlit("Highlights2012");
    reveal_strlit("Shadows2012");
    reveal_strlit("LuminanceSmoothing");
    reveal_strlit("ColorNoiseReduction");
}

/// AI is contacted only when the master switch and "Use AI" are both on.
pub fn should_contact_ollama(settings: &AppSettings) -> (b: bool)
    ensures
        b == (settings.enable_ai_features && settings.use_ai_for_edit),
{
    settings.enable_ai_features && settings.use_ai_for_edit
}

/// Apply the strength steps an AI adjustment asks for: each given strength
/// replaces its recipe (the vignette style is kept), and a subject blur
/// strength replaces the planned one.
pub fn apply_ai_strengths(
    plan: &mut EditPlan,
    eye_sharpen_strength: Option<EditStrength>,
    vignette_strength: Option<EditStrength>,
    subject_blur_strength: Option<EditStrength>,
)
    ensures
        final(plan).settings_map() == old(plan).settings_map().union_prefer_right(
            match eye_sharpen_strength {
                Some(s) => sharpen_settings(s),
                None => Map::empty(),
            },
        ).union_prefer_right(
            match vignette_strength {
                Some(s) => vignette_settings(s),
                None => Map::empty(),
            },
        ),
        final(plan).blur() == match subject_blur_strength {
            Some(s) => Some(s),
            None => old(plan).blur(),
        },
        final(plan).warning_texts() == old(plan).warning_texts(),
{
    let ghost m0 = plan.settings_map();
    if let Some(strength) = eye_sharpen_strength {
        plan.set_sharpen(strength);
    }
    let ghost m1 = plan.settings_map();
    proof {
        assert(m1 =~= m0.union_prefer_right(
            match eye_sharpen_strength {
                Some(s) => sharpen_settings(s),
                None => Map::empty(),
            },
        ));
    }
    if let Some(strength) = vignette_strength {
        plan.set_vignette(strength);
    }
    proof {
        assert(plan.settings_map() =~= m1.union_prefer_right(
            match vignette_strength {
                Some(s) => vignette_settings(s),
                None => Map::empty(),
            },
        ));
    }
    if let Some(strength) = subject_blur_strength {
        proof {
            use_type_invariant(&*plan);
        }
        plan.subject_blur_strength = Some(strength);
    }
}

/// The checks an Image Editing request passes before any work starts: the
/// source must be a folder, and AI editing needs the AI master switch.
pub fn edit_preflight(source_is_dir: bool, source: &str, settings: &AppSettings) -> (r: Result<(), String>)
    ensures
        !source_is_dir ==> (r matches Err(e) && e@ == "ASPEN-FS-SOURCE: not a directory: "@ + source@),
        source_is_dir && settings.use_ai_for_edit && !settings.enable_ai_features ==> (r matches Err(e) && e@
            == "ASPEN-OLLAMA-DISABLED: enable AI features before using AI"@),
        source_is_dir && !(settings.use_ai_for_edit && !settings.enable_ai_features) ==> r is Ok,
{
    if !source_is_dir {
        let mut e = String::from_str("ASPEN-FS-SOURCE: not a directory: ");
        e.append(source);
        return Err(e);
    }
    if settings.use_ai_for_edit && !settings.enable_ai_features {
        return Err(String::from_str("ASPEN-OLLAMA-DISABLED: enable AI features before using AI"));
    }
    Ok(())
}

/// The Lightroom MCP tools an Image Editing run calls, in the order checked.
pub open spec fn required_tools() -> Seq<Seq<char>> {
    seq!["import_photos"@, "set_develop_settings"@, "export_photos"@]
}

/// The first required tool, from position `i`, that `names` does not list.
pub open spec fn first_missing_tool(names: Seq<Seq<char>>, i: int) -> Option<Seq<char>>
    decreases 3 - i,
{
    if i >= 3 || i < 0 {
        None
    } else if !names.contains(required_tools()[i]) {
        Some(required_tools()[i])
    } else {
        first_missing_tool(names, i + 1)
    }
}

/// Whether `names` lists `tool`.
fn lists_tool(names: &[String], tool: &str) -> (b: bool)
    ensures
        b == names@.map_values(|n: String| n@).contains(tool@),
{
    let ghost v = names@.map_values(|n: String| n@);
    let mut i: usize = 0;
    while i < names.len()
        invariant
            i <= names@.len(),
            v == names@.map_values(|n: String| n@),
            forall|k: int| 0 <= k < i ==> v[k] != tool@,
        decreases names.len() - i,
    {
        if str_eq(names[i].as_str(), tool) {
            proof {
                assert(v[i as int] == tool@);
            }
            return true;
        }
        i = i + 1;
    }
    false
}

/// The first tool the run needs that the Lightroom helper does not expose.
pub fn missing_required_tool(tool_names: &[String]) -> (r: Option<&'static str>)
    ensures
        r matches Some(t) ==> first_missing_tool(tool_names@.map_values(|n: String| n@), 0) == Some(t@),
        r is None ==> first_missing_tool(tool_names@.map_values(|n: String| n@), 0) is None,
{
    let ghost v = tool_names@.map_values(|n: String| n@);
    if !lists_tool(tool_names, "import_photos") {
        return Some("import_photos");
    }
    proof {
        assert(first_missing_tool(v, 0) == first_missing_tool(v, 1));
    }
    if !lists_tool(tool_names, "set_develop_settings") {
        return Some("set_develop_settings");
    }
    proof {
        assert(first_missing_tool(v, 1) == first_missing_tool(v, 2));
    }
    if !lists_tool(tool_names, "export_photos") {
        return Some("export_photos");
    }
    proof {
        assert(first_missing_tool(v, 2) == first_missing_tool(v, 3));
    }
    None
}

/// How a strength is written in messages.
pub open spec fn strength_name(s: EditStrength) -> Seq<char> {
    match s {
        EditStrength::Small => "Small"@,
        EditStrength::Medium => "Medium"@,
        EditStrength::High => "High"@,
    }
}

/// The warnings a run reports: the plan's own, then the subject blur that
/// the Lightroom helper cannot apply.
pub open spec fn run_warning_texts(plan: EditPlan) -> Seq<Seq<char>> {
    match plan.blur() {
        Some(s) => plan.warning_texts().push(
            "Subject blur ("@ + strength_name(s)
                + ") skipped: Lightroom MCP 0.9 does not expose Lens Blur or subject masks."@,
        ),
        None => plan.warning_texts(),
    }
}

/// The warnings of an Image Editing run for `plan`.
pub fn run_warnings(plan: &EditPlan) -> (w: Vec<String>)
    ensures
        w@.map_values(|x: String| x@) == run_warning_texts(*plan),
{
    let src = plan.warnings();
    let mut w: Vec<String> = Vec::new();
    let mut i: usize = 0;
    while i < src.len()
        invariant
            i <= src@.len(),
            src@.map_values(|x: String| x@) == plan.warning_texts(),
            w@.map_values(|x: String| x@) == plan.warning_texts().take(i as int),
        decreases src.len() - i,
    {
        let ghost before = w@;
        w.push(src[i].clone());
        proof {
            assert(w@.map_values(|x: String| x@) =~= before.map_values(|x: String| x@).push(src@[i as int]@));
            assert(plan.warning_texts()[i as int] == src@[i as int]@);
            assert(plan.warning_texts().take(i + 1) =~= plan.warning_texts().take(i as int).push(
                plan.warning_texts()[i as int],
            ));
        }
        i = i + 1;
    }
    proof {
        assert(plan.warning_texts().take(src@.len() as int) =~= plan.warning_texts());
    }
    if let Some(strength) = plan.subject_blur_strength() {
        let mut line = String::from_str("Subject blur (");
        match strength {
            EditStrength::Small => line.append("Small"),
            EditStrength::Medium => line.append("Medium"),
            EditStrength::High => line.append("High"),
        }
        line.append(") skipped: Lightroom MCP 0.9 does not expose Lens Blur or subject masks.");
        let ghost before = w@;
        w.push(line);
        proof {
            assert(w@.map_values(|x: String| x@) =~= before.map_values(|x: String| x@).push(line@));
        }
    }
    w
}

/// The most messages kept in a chat request.
pub const MAX_CHAT_MESSAGES: usize = 20;

/// The approximate character budget of a chat request.
pub const MAX_CHAT_CHARS: usize = 32000;

/// Total length of the last `k` messages.
pub open spec fn sum_last(lengths: Seq<usize>, k: int) -> int
    decreases k,
{
    if k <= 0 {
        0
    } else {
        sum_last(lengths, k - 1) + lengths[lengths.len() - k]
    }
}

proof fn lemma_sum_last_mono(lengths: Seq<usize>, j: int, k: int)
    requires
        0 <= j <= k <= lengths.len(),
    ensures
        sum_last(lengths, j) <= sum_last(lengths, k),
    decreases k - j,
{
    if j < k {
        lemma_sum_last_mono(lengths, j, k - 1);
    }
}

/// How many of the most recent messages a chat request keeps, given the
/// length of each message's text in order: as many as fit within the
/// message limit and the character budget, and always the latest one.
pub fn chat_window(lengths: &[usize]) -> (k: usize)
    ensures
        k <= MAX_CHAT_MESSAGES,
        k <= lengths@.len(),
        lengths@.len() > 0 ==> k >= 1,
        k <= 1 || sum_last(lengths@, k as int) <= MAX_CHAT_CHARS,
        k == MAX_CHAT_MESSAGES || k == lengths@.len() || (k >= 1 && sum_last(lengths@, k + 1)
            > MAX_CHAT_CHARS),
{
    let n = lengths.len();
    let mut k: usize = 0;
    let mut chars: u128 = 0;
    while k < MAX_CHAT_MESSAGES && k < n
        invariant
            n == lengths@.len(),
            k <= MAX_CHAT_MESSAGES,
            k <= n,
            chars == sum_last(lengths@, k as int),
            k <= 1 || chars <= MAX_CHAT_CHARS,
            chars <= u64::MAX as u128 * k as u128,
        decreases n - k,
    {
        let len = lengths[n - 1 - k];
        if k > 0 && chars + len as u128 > MAX_CHAT_CHARS as u128 {
            return k;
        }
        chars = chars + len as u128;
        k = k + 1;
    }
    k
}

/// Name of the `version`-th output folder.
pub open spec fn output_folder_name(version: nat) -> Seq<char> {
    if version <= 1 {
        "Processed-Images"@
    } else {
        "Processed-Images-"@ + decimal(version)
    }
}

/// The first version number that is never tried.
pub const OUTPUT_VERSION_LIMIT: u64 = 10000;

/// `exists` reported every output folder below `version` as taken.
pub open spec fn versions_taken_below<F: Fn(&str) -> bool>(probe: F, parent: Seq<char>, version: nat) -> bool {
    forall|v: nat|
        #![trigger output_folder_name(v)]
        1 <= v < version ==> reported(probe, join_path(parent, output_folder_name(v)), true)
}

/// The next output folder beside the source folder: `Processed-Images`, then
/// `Processed-Images-2`, `-3`, and so on, never reusing one that `exists`
/// reports. `parent` is the source folder's parent.
pub fn next_output_dir<F: Fn(&str) -> bool>(parent: Option<&str>, probe: F) -> (r: Result<String, String>)
    requires
        forall|s: &str| #[trigger] probe.requires((s,)),
    ensures
        parent is None ==> (r matches Err(e) && e@ == "ASPEN-FS-OUTPUT: source has no parent"@),
        r matches Ok(p) ==> parent is Some && exists|v: nat|
            #![trigger output_folder_name(v)]
            1 <= v < OUTPUT_VERSION_LIMIT && p@ == join_path(parent.unwrap()@, output_folder_name(v))
                && reported(probe, p@, false) && versions_taken_below(probe, parent.unwrap()@, v),
        parent is Some && r is Err ==> (r matches Err(e) && e@ == "ASPEN-FS-OUTPUT: no output version available"@)
            && versions_taken_below(probe, parent.unwrap()@, OUTPUT_VERSION_LIMIT as nat),
{
    let dir = match parent {
        Some(p) => p,
        None => {
            return Err(String::from_str("ASPEN-FS-OUTPUT: source has no parent"));
        },
    };
    let first = path_join(dir, "Processed-Images");
    let fs = first.as_str();
    if !probe(fs) {
        proof {
            assert(output_folder_name(1) == "Processed-Images"@);
            assert(probe.ensures((fs,), false));
        }
        return Ok(first);
    }
    proof {
        assert forall|v: nat| #![trigger output_folder_name(v)] 1 <= v < 2 implies reported(
            probe,
            join_path(dir@, output_folder_name(v)),
            true,
        ) by {
            assert(probe.ensures((fs,), true));
        }
    }
    let mut version: u64 = 2;
    while version < OUTPUT_VERSION_LIMIT
        invariant
            2 <= version <= OUTPUT_VERSION_LIMIT,
            parent == Some(dir),
            forall|s: &str| #[trigger] probe.requires((s,)),
            versions_taken_below(probe, dir@, version as nat),
        decreases OUTPUT_VERSION_LIMIT - version,
    {
        let mut name = String::from_str("Processed-Images-");
        push_decimal(&mut name, version);
        let candidate = path_join(dir, name.as_str());
        let cs = candidate.as_str();
        proof {
            assert(name@ == output_folder_name(version as nat));
        }
        if !probe(cs) {
            proof {
                assert(probe.ensures((cs,), false));
            }
            return Ok(candidate);
        }
        proof {
            assert forall|v: nat| #![trigger output_folder_name(v)] 1 <= v < version + 1 implies reported(
                probe,
                join_path(dir@, output_folder_name(v)),
                true,
            ) by {
                if v == version as nat {
                    assert(probe.ensures((cs,), true));
                } else {
                    assert(versions_taken_below(probe, dir@, version as nat));
                }
            }
        }
        version = version + 1;
    }
    Err(String::from_str("ASPEN-FS-OUTPUT: no output version available"))
}

/// Whether Image Editing processes a file with extension `ext` (any case).
pub fn is_edit_image_ext(ext: &str) -> (b: bool)
    ensures
        b == default_extension_names().contains(lower_seq(ext@)),
{
    let e = ascii_lower(ext);
    let names = crate::settings::default_extensions();
    let mut i: usize = 0;
    while i < names.len()
        invariant
            e@ == lower_seq(ext@),
            names@.len() == default_extension_names().len(),
            forall|k: int| 0 <= k < names@.len() ==> #[trigger] names@[k]@ == default_extension_names()[k],
            i <= names@.len(),
            forall|k: int| 0 <= k < i ==> default_extension_names()[k] != e@,
        decreases names.len() - i,
    {
        if str_eq(names[i].as_str(), e.as_str()) {
            proof {
                assert(default_extension_names()[i as int] == e@);
            }
            return true;
        }
        i = i + 1;
    }
    false
}

/// Report one step of an Image Editing run to `callback`.
pub fn emit<F: FnMut(ImageEditProgress)>(
    callback: &mut F,
    run_id: &str,
    stage: &str,
    message: &str,
    current: usize,
    total: usize,
    level: &str,
)
    requires
        forall|p: ImageEditProgress| #[trigger] (*old(callback)).requires((p,)),
    ensures
        exists|p: ImageEditProgress|
            #![trigger (*old(callback)).ensures((p,), ())]
            (*old(callback)).ensures((p,), ()) && p.run_id@ == run_id@ && p.stage@ == stage@ && p.message@
                == message@ && p.current == current && p.total == total && p.level@ == level@,
{
    let event = ImageEditProgress {
        run_id: crate::text::string_from_chars(crate::text::chars_of(run_id).as_slice()),
        stage: crate::text::string_from_chars(crate::text::chars_of(stage).as_slice()),
        message: crate::text::string_from_chars(crate::text::chars_of(message).as_slice()),
        current,
        total,
        level: crate::text::string_from_chars(crate::text::chars_of(level).as_slice()),
    };
    callback(event);
}

} // verus!
