//! Blend mode identifiers.
//!
//! The set and the four-byte keys are those of the PSD format's blend mode
//! keys ('norm', 'mul ', ...). `PassThrough` is only valid on groups.

use vstd::prelude::*;

verus! {

#[derive(Debug, Clone, Copy, PartialEq, Eq, Hash, Structural)]
pub enum BlendMode {
    PassThrough,
    Normal,
    Dissolve,
    Darken,
    Multiply,
    ColorBurn,
    LinearBurn,
    DarkerColor,
    Lighten,
    Screen,
    ColorDodge,
    LinearDodge,
    LighterColor,
    Overlay,
    SoftLight,
    HardLight,
    VividLight,
    LinearLight,
    PinLight,
    HardMix,
    Difference,
    Exclusion,
    Subtract,
    Divide,
    Hue,
    Saturation,
    Color,
    Luminosity,
}

/// Four ASCII characters as bytes.
pub open spec fn four(a: char, b: char, c: char, d: char) -> Seq<u8> {
    seq![a as u8, b as u8, c as u8, d as u8]
}

/// The key that stands for a mode in a layer record.
pub open spec fn key_of(mode: BlendMode) -> Seq<u8> {
    match mode {
        BlendMode::PassThrough => four('p', 'a', 's', 's'),
        BlendMode::Normal => four('n', 'o', 'r', 'm'),
        BlendMode::Dissolve => four('d', 'i', 's', 's'),
        BlendMode::Darken => four('d', 'a', 'r', 'k'),
        BlendMode::Multiply => four('m', 'u', 'l', ' '),
        BlendMode::ColorBurn => four('i', 'd', 'i', 'v'),
        BlendMode::LinearBurn => four('l', 'b', 'r', 'n'),
        BlendMode::DarkerColor => four('d', 'k', 'C', 'l'),
        BlendMode::Lighten => four('l', 'i', 't', 'e'),
        BlendMode::Screen => four('s', 'c', 'r', 'n'),
        BlendMode::ColorDodge => four('d', 'i', 'v', ' '),
        BlendMode::LinearDodge => four('l', 'd', 'd', 'g'),
        BlendMode::LighterColor => four('l', 'g', 'C', 'l'),
        BlendMode::Overlay => four('o', 'v', 'e', 'r'),
        BlendMode::SoftLight => four('s', 'L', 'i', 't'),
        BlendMode::HardLight => four('h', 'L', 'i', 't'),
        BlendMode::VividLight => four('v', 'L', 'i', 't'),
        BlendMode::LinearLight => four('l', 'L', 'i', 't'),
        BlendMode::PinLight => four('p', 'L', 'i', 't'),
        BlendMode::HardMix => four('h', 'M', 'i', 'x'),
        BlendMode::Difference => four('d', 'i', 'f', 'f'),
        BlendMode::Exclusion => four('s', 'm', 'u', 'd'),
        BlendMode::Subtract => four('f', 's', 'u', 'b'),
        BlendMode::Divide => four('f', 'd', 'i', 'v'),
        BlendMode::Hue => four('h', 'u', 'e', ' '),
        BlendMode::Saturation => four('s', 'a', 't', ' '),
        BlendMode::Color => four('c', 'o', 'l', 'r'),
        BlendMode::Luminosity => four('l', 'u', 'm', ' '),
    }
}

/// The mode whose key this is.
pub open spec fn mode_of(key: Seq<u8>) -> Option<BlendMode> {
    if exists|mode: BlendMode| #[trigger] key_of(mode) == key {
        Some(choose|mode: BlendMode| #[trigger] key_of(mode) == key)
    } else {
        None
    }
}

/// What a mode is called in a menu.
pub open spec fn name_of(mode: BlendMode) -> Seq<char> {
    match mode {
        BlendMode::PassThrough => "Pass Through"@,
        BlendMode::Normal => "Normal"@,
        BlendMode::Dissolve => "Dissolve"@,
        BlendMode::Darken => "Darken"@,
        BlendMode::Multiply => "Multiply"@,
        BlendMode::ColorBurn => "Color Burn"@,
        BlendMode::LinearBurn => "Linear Burn"@,
        BlendMode::DarkerColor => "Darker Color"@,
        BlendMode::Lighten => "Lighten"@,
        BlendMode::Screen => "Screen"@,
        BlendMode::ColorDodge => "Color Dodge"@,
        BlendMode::LinearDodge => "Linear Dodge (Add)"@,
        BlendMode::LighterColor => "Lighter Color"@,
        BlendMode::Overlay => "Overlay"@,
        BlendMode::SoftLight => "Soft Light"@,
        BlendMode::HardLight => "Hard Light"@,
        BlendMode::VividLight => "Vivid Light"@,
        BlendMode::LinearLight => "Linear Light"@,
        BlendMode::PinLight => "Pin Light"@,
        BlendMode::HardMix => "Hard Mix"@,
        BlendMode::Difference => "Difference"@,
        BlendMode::Exclusion => "Exclusion"@,
        BlendMode::Subtract => "Subtract"@,
        BlendMode::Divide => "Divide"@,
        BlendMode::Hue => "Hue"@,
        BlendMode::Saturation => "Saturation"@,
        BlendMode::Color => "Color"@,
        BlendMode::Luminosity => "Luminosity"@,
    }
}

/// The modes of an ordinary layer, in menu order.
pub open spec fn menu() -> Seq<BlendMode> {
    seq![
        BlendMode::Normal,
        BlendMode::Dissolve,
        BlendMode::Darken,
        BlendMode::Multiply,
        BlendMode::ColorBurn,
        BlendMode::LinearBurn,
        BlendMode::DarkerColor,
        BlendMode::Lighten,
        BlendMode::Screen,
        BlendMode::ColorDodge,
        BlendMode::LinearDodge,
        BlendMode::LighterColor,
        BlendMode::Overlay,
        BlendMode::SoftLight,
        BlendMode::HardLight,
        BlendMode::VividLight,
        BlendMode::LinearLight,
        BlendMode::PinLight,
        BlendMode::HardMix,
        BlendMode::Difference,
        BlendMode::Exclusion,
        BlendMode::Subtract,
        BlendMode::Divide,
        BlendMode::Hue,
        BlendMode::Saturation,
        BlendMode::Color,
        BlendMode::Luminosity,
    ]
}

/// Different modes have different keys.
pub proof fn law_keys_differ(a: BlendMode, b: BlendMode)
    requires
        key_of(a) == key_of(b),
    ensures
        a == b,
{
    let (s, t) = (key_of(a), key_of(b));
    assert(s[0] == t[0] && s[1] == t[1] && s[2] == t[2] && s[3] == t[3]);
}

/// A mode is found again by its key.
pub proof fn law_key_round_trip(mode: BlendMode)
    ensures
        mode_of(key_of(mode)) == Some(mode),
{
    let found = choose|other: BlendMode| #[trigger] key_of(other) == key_of(mode);
    assert(key_of(found) == key_of(mode));
    law_keys_differ(found, mode);
}

/// The menu of an ordinary layer offers every mode but the one that only a
/// group can have, each of them once.
pub proof fn law_menu_is_complete(mode: BlendMode, i: int, j: int)
    ensures
        menu().contains(mode) <==> mode != BlendMode::PassThrough,
        0 <= i < menu().len() && 0 <= j < menu().len() && menu()[i] == menu()[j] ==> i == j,
{
    let m = menu();
    assert(m[0] == BlendMode::Normal);
    assert(m[1] == BlendMode::Dissolve);
    assert(m[2] == BlendMode::Darken);
    assert(m[3] == BlendMode::Multiply);
    assert(m[4] == BlendMode::ColorBurn);
    assert(m[5] == BlendMode::LinearBurn);
    assert(m[6] == BlendMode::DarkerColor);
    assert(m[7] == BlendMode::Lighten);
    assert(m[8] == BlendMode::Screen);
    assert(m[9] == BlendMode::ColorDodge);
    assert(m[10] == BlendMode::LinearDodge);
    assert(m[11] == BlendMode::LighterColor);
    assert(m[12] == BlendMode::Overlay);
    assert(m[13] == BlendMode::SoftLight);
    assert(m[14] == BlendMode::HardLight);
    assert(m[15] == BlendMode::VividLight);
    assert(m[16] == BlendMode::LinearLight);
    assert(m[17] == BlendMode::PinLight);
    assert(m[18] == BlendMode::HardMix);
    assert(m[19] == BlendMode::Difference);
    assert(m[20] == BlendMode::Exclusion);
    assert(m[21] == BlendMode::Subtract);
    assert(m[22] == BlendMode::Divide);
    assert(m[23] == BlendMode::Hue);
    assert(m[24] == BlendMode::Saturation);
    assert(m[25] == BlendMode::Color);
    assert(m[26] == BlendMode::Luminosity);
}

impl BlendMode {
    /// The four bytes that follow the signature in a layer record.
    pub fn psd_key(self) -> (key: &'static [u8; 4])
        ensures
            key@ == key_of(self),
    {
        let key: &'static [u8; 4] = match self {
            BlendMode::PassThrough => &[0x70, 0x61, 0x73, 0x73],
            BlendMode::Normal => &[0x6e, 0x6f, 0x72, 0x6d],
            BlendMode::Dissolve => &[0x64, 0x69, 0x73, 0x73],
            BlendMode::Darken => &[0x64, 0x61, 0x72, 0x6b],
            BlendMode::Multiply => &[0x6d, 0x75, 0x6c, 0x20],
            BlendMode::ColorBurn => &[0x69, 0x64, 0x69, 0x76],
            BlendMode::LinearBurn => &[0x6c, 0x62, 0x72, 0x6e],
            BlendMode::DarkerColor => &[0x64, 0x6b, 0x43, 0x6c],
            BlendMode::Lighten => &[0x6c, 0x69, 0x74, 0x65],
            BlendMode::Screen => &[0x73, 0x63, 0x72, 0x6e],
            BlendMode::ColorDodge => &[0x64, 0x69, 0x76, 0x20],
            BlendMode::LinearDodge => &[0x6c, 0x64, 0x64, 0x67],
            BlendMode::LighterColor => &[0x6c, 0x67, 0x43, 0x6c],
            BlendMode::Overlay => &[0x6f, 0x76, 0x65, 0x72],
            BlendMode::SoftLight => &[0x73, 0x4c, 0x69, 0x74],
            BlendMode::HardLight => &[0x68, 0x4c, 0x69, 0x74],
            BlendMode::VividLight => &[0x76, 0x4c, 0x69, 0x74],
            BlendMode::LinearLight => &[0x6c, 0x4c, 0x69, 0x74],
            BlendMode::PinLight => &[0x70, 0x4c, 0x69, 0x74],
            BlendMode::HardMix => &[0x68, 0x4d, 0x69, 0x78],
            BlendMode::Difference => &[0x64, 0x69, 0x66, 0x66],
            BlendMode::Exclusion => &[0x73, 0x6d, 0x75, 0x64],
            BlendMode::Subtract => &[0x66, 0x73, 0x75, 0x62],
            BlendMode::Divide => &[0x66, 0x64, 0x69, 0x76],
            BlendMode::Hue => &[0x68, 0x75, 0x65, 0x20],
            BlendMode::Saturation => &[0x73, 0x61, 0x74, 0x20],
            BlendMode::Color => &[0x63, 0x6f, 0x6c, 0x72],
            BlendMode::Luminosity => &[0x6c, 0x75, 0x6d, 0x20],
        };
        assert(key@ =~= key_of(self));
        key
    }

    /// The mode with this key, if there is one.
    pub fn from_psd_key(key: &[u8; 4]) -> (mode: Option<BlendMode>)
        ensures
            mode == mode_of(key@),
    {
        let found: Option<BlendMode> = if has_key(key, BlendMode::PassThrough) {
            Some(BlendMode::PassThrough)
        } else {
            find_key(key, BlendMode::layer_modes())
        };
        proof {
            match found {
                Some(mode) => {
                    assert(key_of(mode) == key@);
                    law_key_round_trip(mode);
                },
                None => {
                    assert forall|mode: BlendMode| #[trigger] key_of(mode) != key@ by {
                        law_menu_is_complete(mode, 0, 0);
                    }
                },
            }
        }
        found
    }

    /// What the mode is called in a menu.
    pub fn display_name(self) -> (name: &'static str)
        ensures
            name@ == name_of(self),
    {
        match self {
            BlendMode::PassThrough => "Pass Through",
            BlendMode::Normal => "Normal",
            BlendMode::Dissolve => "Dissolve",
            BlendMode::Darken => "Darken",
            BlendMode::Multiply => "Multiply",
            BlendMode::ColorBurn => "Color Burn",
            BlendMode::LinearBurn => "Linear Burn",
            BlendMode::DarkerColor => "Darker Color",
            BlendMode::Lighten => "Lighten",
            BlendMode::Screen => "Screen",
            BlendMode::ColorDodge => "Color Dodge",
            BlendMode::LinearDodge => "Linear Dodge (Add)",
            BlendMode::LighterColor => "Lighter Color",
            BlendMode::Overlay => "Overlay",
            BlendMode::SoftLight => "Soft Light",
            BlendMode::HardLight => "Hard Light",
            BlendMode::VividLight => "Vivid Light",
            BlendMode::LinearLight => "Linear Light",
            BlendMode::PinLight => "Pin Light",
            BlendMode::HardMix => "Hard Mix",
            BlendMode::Difference => "Difference",
            BlendMode::Exclusion => "Exclusion",
            BlendMode::Subtract => "Subtract",
            BlendMode::Divide => "Divide",
            BlendMode::Hue => "Hue",
            BlendMode::Saturation => "Saturation",
            BlendMode::Color => "Color",
            BlendMode::Luminosity => "Luminosity",
        }
    }

    /// All modes selectable on a normal (non-group) layer, in menu order.
    pub fn layer_modes() -> (modes: &'static [BlendMode])
        ensures
            modes@ == menu(),
    {
        let modes: &'static [BlendMode; 27] = &[
            BlendMode::Normal,
            BlendMode::Dissolve,
            BlendMode::Darken,
            BlendMode::Multiply,
            BlendMode::ColorBurn,
            BlendMode::LinearBurn,
            BlendMode::DarkerColor,
            BlendMode::Lighten,
            BlendMode::Screen,
            BlendMode::ColorDodge,
            BlendMode::LinearDodge,
            BlendMode::LighterColor,
            BlendMode::Overlay,
            BlendMode::SoftLight,
            BlendMode::HardLight,
            BlendMode::VividLight,
            BlendMode::LinearLight,
            BlendMode::PinLight,
            BlendMode::HardMix,
            BlendMode::Difference,
            BlendMode::Exclusion,
            BlendMode::Subtract,
            BlendMode::Divide,
            BlendMode::Hue,
            BlendMode::Saturation,
            BlendMode::Color,
            BlendMode::Luminosity,
        ];
        assert(modes@ =~= menu());
        modes.as_slice()
    }
}

fn has_key(key: &[u8; 4], mode: BlendMode) -> (r: bool)
    ensures
        r == (key_of(mode) == key@),
{
    let other = mode.psd_key();
    let r = key[0] == other[0] && key[1] == other[1] && key[2] == other[2] && key[3] == other[3];
    assert(r ==> key@ =~= other@);
    r
}

/// The first of some modes that has this key.
fn find_key(key: &[u8; 4], modes: &[BlendMode]) -> (found: Option<BlendMode>)
    ensures
        match found {
            Some(mode) => key_of(mode) == key@,
            None => forall|mode: BlendMode|
                modes@.contains(mode) ==> #[trigger] key_of(mode) != key@,
        },
{
    let mut i: usize = 0;
    while i < modes.len()
        invariant
            i <= modes@.len(),
            forall|k: int| 0 <= k < i ==> key_of(#[trigger] modes@[k]) != key@,
        decreases modes@.len() - i,
    {
        if has_key(key, modes[i]) {
            return Some(modes[i]);
        }
        i = i + 1;
    }
    None
}

/// The letters of every mode's key, by their codes.
pub proof fn law_keys_are_those_of_the_format()
    ensures
        mode_of(seq![0x70u8, 0x61u8, 0x73u8, 0x73u8]) == Some(BlendMode::PassThrough),
        mode_of(seq![0x6eu8, 0x6fu8, 0x72u8, 0x6du8]) == Some(BlendMode::Normal),
        mode_of(seq![0x64u8, 0x69u8, 0x73u8, 0x73u8]) == Some(BlendMode::Dissolve),
        mode_of(seq![0x64u8, 0x61u8, 0x72u8, 0x6bu8]) == Some(BlendMode::Darken),
        mode_of(seq![0x6du8, 0x75u8, 0x6cu8, 0x20u8]) == Some(BlendMode::Multiply),
        mode_of(seq![0x69u8, 0x64u8, 0x69u8, 0x76u8]) == Some(BlendMode::ColorBurn),
        mode_of(seq![0x6cu8, 0x62u8, 0x72u8, 0x6eu8]) == Some(BlendMode::LinearBurn),
        mode_of(seq![0x64u8, 0x6bu8, 0x43u8, 0x6cu8]) == Some(BlendMode::DarkerColor),
        mode_of(seq![0x6cu8, 0x69u8, 0x74u8, 0x65u8]) == Some(BlendMode::Lighten),
        mode_of(seq![0x73u8, 0x63u8, 0x72u8, 0x6eu8]) == Some(BlendMode::Screen),
        mode_of(seq![0x64u8, 0x69u8, 0x76u8, 0x20u8]) == Some(BlendMode::ColorDodge),
        mode_of(seq![0x6cu8, 0x64u8, 0x64u8, 0x67u8]) == Some(BlendMode::LinearDodge),
        mode_of(seq![0x6cu8, 0x67u8, 0x43u8, 0x6cu8]) == Some(BlendMode::LighterColor),
        mode_of(seq![0x6fu8, 0x76u8, 0x65u8, 0x72u8]) == Some(BlendMode::Overlay),
        mode_of(seq![0x73u8, 0x4cu8, 0x69u8, 0x74u8]) == Some(BlendMode::SoftLight),
        mode_of(seq![0x68u8, 0x4cu8, 0x69u8, 0x74u8]) == Some(BlendMode::HardLight),
        mode_of(seq![0x76u8, 0x4cu8, 0x69u8, 0x74u8]) == Some(BlendMode::VividLight),
        mode_of(seq![0x6cu8, 0x4cu8, 0x69u8, 0x74u8]) == Some(BlendMode::LinearLight),
        mode_of(seq![0x70u8, 0x4cu8, 0x69u8, 0x74u8]) == Some(BlendMode::PinLight),
        mode_of(seq![0x68u8, 0x4du8, 0x69u8, 0x78u8]) == Some(BlendMode::HardMix),
        mode_of(seq![0x64u8, 0x69u8, 0x66u8, 0x66u8]) == Some(BlendMode::Difference),
        mode_of(seq![0x73u8, 0x6du8, 0x75u8, 0x64u8]) == Some(BlendMode::Exclusion),
        mode_of(seq![0x66u8, 0x73u8, 0x75u8, 0x62u8]) == Some(BlendMode::Subtract),
        mode_of(seq![0x66u8, 0x64u8, 0x69u8, 0x76u8]) == Some(BlendMode::Divide),
        mode_of(seq![0x68u8, 0x75u8, 0x65u8, 0x20u8]) == Some(BlendMode::Hue),
        mode_of(seq![0x73u8, 0x61u8, 0x74u8, 0x20u8]) == Some(BlendMode::Saturation),
        mode_of(seq![0x63u8, 0x6fu8, 0x6cu8, 0x72u8]) == Some(BlendMode::Color),
        mode_of(seq![0x6cu8, 0x75u8, 0x6du8, 0x20u8]) == Some(BlendMode::Luminosity),
{
    lemma_mode_of(BlendMode::PassThrough, seq![0x70u8, 0x61u8, 0x73u8, 0x73u8]);
    lemma_mode_of(BlendMode::Normal, seq![0x6eu8, 0x6fu8, 0x72u8, 0x6du8]);
    lemma_mode_of(BlendMode::Dissolve, seq![0x64u8, 0x69u8, 0x73u8, 0x73u8]);
    lemma_mode_of(BlendMode::Darken, seq![0x64u8, 0x61u8, 0x72u8, 0x6bu8]);
    lemma_mode_of(BlendMode::Multiply, seq![0x6du8, 0x75u8, 0x6cu8, 0x20u8]);
    lemma_mode_of(BlendMode::ColorBurn, seq![0x69u8, 0x64u8, 0x69u8, 0x76u8]);
    lemma_mode_of(BlendMode::LinearBurn, seq![0x6cu8, 0x62u8, 0x72u8, 0x6eu8]);
    lemma_mode_of(BlendMode::DarkerColor, seq![0x64u8, 0x6bu8, 0x43u8, 0x6cu8]);
    lemma_mode_of(BlendMode::Lighten, seq![0x6cu8, 0x69u8, 0x74u8, 0x65u8]);
    lemma_mode_of(BlendMode::Screen, seq![0x73u8, 0x63u8, 0x72u8, 0x6eu8]);
    lemma_mode_of(BlendMode::ColorDodge, seq![0x64u8, 0x69u8, 0x76u8, 0x20u8]);
    lemma_mode_of(BlendMode::LinearDodge, seq![0x6cu8, 0x64u8, 0x64u8, 0x67u8]);
    lemma_mode_of(BlendMode::LighterColor, seq![0x6cu8, 0x67u8, 0x43u8, 0x6cu8]);
    lemma_mode_of(BlendMode::Overlay, seq![0x6fu8, 0x76u8, 0x65u8, 0x72u8]);
    lemma_mode_of(BlendMode::SoftLight, seq![0x73u8, 0x4cu8, 0x69u8, 0x74u8]);
    lemma_mode_of(BlendMode::HardLight, seq![0x68u8, 0x4cu8, 0x69u8, 0x74u8]);
    lemma_mode_of(BlendMode::VividLight, seq![0x76u8, 0x4cu8, 0x69u8, 0x74u8]);
    lemma_mode_of(BlendMode::LinearLight, seq![0x6cu8, 0x4cu8, 0x69u8, 0x74u8]);
    lemma_mode_of(BlendMode::PinLight, seq![0x70u8, 0x4cu8, 0x69u8, 0x74u8]);
    lemma_mode_of(BlendMode::HardMix, seq![0x68u8, 0x4du8, 0x69u8, 0x78u8]);
    lemma_mode_of(BlendMode::Difference, seq![0x64u8, 0x69u8, 0x66u8, 0x66u8]);
    lemma_mode_of(BlendMode::Exclusion, seq![0x73u8, 0x6du8, 0x75u8, 0x64u8]);
    lemma_mode_of(BlendMode::Subtract, seq![0x66u8, 0x73u8, 0x75u8, 0x62u8]);
    lemma_mode_of(BlendMode::Divide, seq![0x66u8, 0x64u8, 0x69u8, 0x76u8]);
    lemma_mode_of(BlendMode::Hue, seq![0x68u8, 0x75u8, 0x65u8, 0x20u8]);
    lemma_mode_of(BlendMode::Saturation, seq![0x73u8, 0x61u8, 0x74u8, 0x20u8]);
    lemma_mode_of(BlendMode::Color, seq![0x63u8, 0x6fu8, 0x6cu8, 0x72u8]);
    lemma_mode_of(BlendMode::Luminosity, seq![0x6cu8, 0x75u8, 0x6du8, 0x20u8]);
}

proof fn lemma_mode_of(mode: BlendMode, key: Seq<u8>)
    requires
        key.len() == 4,
        key_of(mode)[0] == key[0],
        key_of(mode)[1] == key[1],
        key_of(mode)[2] == key[2],
        key_of(mode)[3] == key[3],
    ensures
        mode_of(key) == Some(mode),
{
    assert(key_of(mode) =~= key);
    law_key_round_trip(mode);
}

/// The menu, read from top to bottom.
pub proof fn law_the_menu_reads_from_normal_to_luminosity(i: int)
    requires
        0 <= i < menu().len(),
    ensures
        name_of(menu()[i]) == seq![
            "Normal"@,
            "Dissolve"@,
            "Darken"@,
            "Multiply"@,
            "Color Burn"@,
            "Linear Burn"@,
            "Darker Color"@,
            "Lighten"@,
            "Screen"@,
            "Color Dodge"@,
            "Linear Dodge (Add)"@,
            "Lighter Color"@,
            "Overlay"@,
            "Soft Light"@,
            "Hard Light"@,
            "Vivid Light"@,
            "Linear Light"@,
            "Pin Light"@,
            "Hard Mix"@,
            "Difference"@,
            "Exclusion"@,
            "Subtract"@,
            "Divide"@,
            "Hue"@,
            "Saturation"@,
            "Color"@,
            "Luminosity"@,
        ][i],
{
    let (all, words) = (
        menu(),
        seq![
            "Normal"@,
            "Dissolve"@,
            "Darken"@,
            "Multiply"@,
            "Color Burn"@,
            "Linear Burn"@,
            "Darker Color"@,
            "Lighten"@,
            "Screen"@,
            "Color Dodge"@,
            "Linear Dodge (Add)"@,
            "Lighter Color"@,
            "Overlay"@,
            "Soft Light"@,
            "Hard Light"@,
            "Vivid Light"@,
            "Linear Light"@,
            "Pin Light"@,
            "Hard Mix"@,
            "Difference"@,
            "Exclusion"@,
            "Subtract"@,
            "Divide"@,
            "Hue"@,
            "Saturation"@,
            "Color"@,
            "Luminosity"@,
        ],
    );
    assert(name_of(all[0]) == words[0]);
    assert(name_of(all[1]) == words[1]);
    assert(name_of(all[2]) == words[2]);
    assert(name_of(all[3]) == words[3]);
    assert(name_of(all[4]) == words[4]);
    assert(name_of(all[5]) == words[5]);
    assert(name_of(all[6]) == words[6]);
    assert(name_of(all[7]) == words[7]);
    assert(name_of(all[8]) == words[8]);
    assert(name_of(all[9]) == words[9]);
    assert(name_of(all[10]) == words[10]);
    assert(name_of(all[11]) == words[11]);
    assert(name_of(all[12]) == words[12]);
    assert(name_of(all[13]) == words[13]);
    assert(name_of(all[14]) == words[14]);
    assert(name_of(all[15]) == words[15]);
    assert(name_of(all[16]) == words[16]);
    assert(name_of(all[17]) == words[17]);
    assert(name_of(all[18]) == words[18]);
    assert(name_of(all[19]) == words[19]);
    assert(name_of(all[20]) == words[20]);
    assert(name_of(all[21]) == words[21]);
    assert(name_of(all[22]) == words[22]);
    assert(name_of(all[23]) == words[23]);
    assert(name_of(all[24]) == words[24]);
    assert(name_of(all[25]) == words[25]);
    assert(name_of(all[26]) == words[26]);
}

} // verus!
