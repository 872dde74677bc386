use vstd::prelude::*;

use crate::text::push_str;

verus! {

/// A colour-theory harmony: hue rotations that go well with a base colour.
#[derive(Debug, Clone, Copy, PartialEq, Eq, Structural)]
pub enum HarmonyMode {
    Complement,
    Analogous,
    Triadic,
    SplitComplement,
    Tetradic,
    All,
}

/// The hue rotations, in degrees, that a single harmony produces.
pub open spec fn offsets_spec(mode: HarmonyMode) -> Seq<i32> {
    match mode {
        HarmonyMode::Complement => seq![180i32],
        HarmonyMode::Analogous => seq![-30i32, 30i32],
        HarmonyMode::Triadic => seq![120i32, 240i32],
        HarmonyMode::SplitComplement => seq![150i32, 210i32],
        HarmonyMode::Tetradic => seq![90i32, 180i32, 270i32],
        HarmonyMode::All => Seq::empty(),
    }
}

/// The single harmonies that a mode stands for: each of the five for `All`, else itself.
pub open spec fn expand_spec(mode: HarmonyMode) -> Seq<HarmonyMode> {
    match mode {
        HarmonyMode::All => seq![
            HarmonyMode::Complement,
            HarmonyMode::Analogous,
            HarmonyMode::Triadic,
            HarmonyMode::SplitComplement,
            HarmonyMode::Tetradic,
        ],
        _ => seq![mode],
    }
}

/// The lower-case, hyphenated name of a mode.
pub open spec fn mode_name_spec(mode: HarmonyMode) -> Seq<char> {
    match mode {
        HarmonyMode::Complement => "complement"@,
        HarmonyMode::Analogous => "analogous"@,
        HarmonyMode::Triadic => "triadic"@,
        HarmonyMode::SplitComplement => "split-complement"@,
        HarmonyMode::Tetradic => "tetradic"@,
        HarmonyMode::All => "all"@,
    }
}

impl HarmonyMode {
    /// The hue rotations in degrees of a single harmony (`All` is not a single harmony).
    pub fn offsets(self) -> (degrees: Vec<i32>)
        requires
            self != HarmonyMode::All,
        ensures
            degrees@ == offsets_spec(self),
    {
        match self {
            HarmonyMode::Complement => vec![180i32],
            HarmonyMode::Analogous => vec![-30i32, 30i32],
            HarmonyMode::Triadic => vec![120i32, 240i32],
            HarmonyMode::SplitComplement => vec![150i32, 210i32],
            HarmonyMode::Tetradic => vec![90i32, 180i32, 270i32],
            HarmonyMode::All => Vec::new(),
        }
    }

    /// The single harmonies to compute for this mode, in report order.
    pub fn expand(self) -> (modes: Vec<HarmonyMode>)
        ensures
            modes@ == expand_spec(self),
    {
        match self {
            HarmonyMode::All => vec![
                HarmonyMode::Complement,
                HarmonyMode::Analogous,
                HarmonyMode::Triadic,
                HarmonyMode::SplitComplement,
                HarmonyMode::Tetradic,
            ],
            _ => vec![self],
        }
    }

    /// The mode's name as shown in reports and accepted on the command line.
    pub fn name(self) -> (name: String)
        ensures
            name@ == mode_name_spec(self),
    {
        let mut name = String::new();
        match self {
            HarmonyMode::Complement => push_str(&mut name, "complement"),
            HarmonyMode::Analogous => push_str(&mut name, "analogous"),
            HarmonyMode::Triadic => push_str(&mut name, "triadic"),
            HarmonyMode::SplitComplement => push_str(&mut name, "split-complement"),
            HarmonyMode::Tetradic => push_str(&mut name, "tetradic"),
            HarmonyMode::All => push_str(&mut name, "all"),
        }
        name
    }
}

/// Each mode is named as the command line spells it: the variant's name in lower case,
/// with a hyphen between words.
pub proof fn lemma_mode_names_are_cli_spellings()
    ensures
        mode_name_spec(HarmonyMode::Complement) == "complement"@,
        mode_name_spec(HarmonyMode::Analogous) == "analogous"@,
        mode_name_spec(HarmonyMode::Triadic) == "triadic"@,
        mode_name_spec(HarmonyMode::SplitComplement) == "split-complement"@,
        mode_name_spec(HarmonyMode::Tetradic) == "tetradic"@,
        mode_name_spec(HarmonyMode::All) == "all"@,
{
}

/// Different modes have different names, so a name tells which harmony a block shows.
pub proof fn lemma_mode_names_distinct(a: HarmonyMode, b: HarmonyMode)
    ensures
        mode_name_spec(a) == mode_name_spec(b) ==> a == b,
{
    reveal_strlit("complement");
    reveal_strlit("analogous");
    reveal_strlit("triadic");
    reveal_strlit("split-complement");
    reveal_strlit("tetradic");
    reveal_strlit("all");
    if mode_name_spec(a) == mode_name_spec(b) {
        assert(mode_name_spec(a).len() == mode_name_spec(b).len());
    }
}

/// Every single harmony of an expanded mode has its rotations, and none is the identity.
pub proof fn lemma_expanded_modes_have_offsets(mode: HarmonyMode)
    ensures
        forall|i: int|
            0 <= i < expand_spec(mode).len() ==> #[trigger] expand_spec(mode)[i] != HarmonyMode::All,
        forall|i: int, j: int|
            0 <= i < expand_spec(mode).len() && 0 <= j < offsets_spec(expand_spec(mode)[i]).len()
                ==> #[trigger] offsets_spec(expand_spec(mode)[i])[j] % 360 != 0,
        mode == HarmonyMode::All ==> expand_spec(mode).len() == 5,
        mode != HarmonyMode::All ==> expand_spec(mode) == seq![mode],
{
}

} // verus!
