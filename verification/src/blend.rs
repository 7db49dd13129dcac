//! The blend modes of a file.
use vstd::prelude::*;

use crate::bytes;

verus! {

/// How a layer is mixed with what lies below it.
#[derive(Clone, Copy, Debug, PartialEq, Eq, Structural)]
pub enum BlendMode {
    Normal,
    Darken,
    Multiply,
    ColorBurn,
    LinearBurn,
    DarkerColor,
    Lighten,
    Screen,
    ColorDodge,
    LinearDodge,
    LighterColor,
    Overlay,
    SoftLight,
    HardLight,
    VividLight,
    LinearLight,
    PinLight,
    HardMix,
    Difference,
    Exclusion,
    Subtract,
    Divide,
    Hue,
    Saturation,
    Color,
    Luminosity,
}

/// The key that stands for a mode. `Normal` also stands for every key that is not known, so it has
/// none of its own here.
pub open spec fn key_of(mode: BlendMode) -> Option<Seq<u8>> {
    match mode {
        BlendMode::Normal => None,
        BlendMode::Darken => Some(bytes::key4('d', 'a', 'r', 'k')),
        BlendMode::Multiply => Some(bytes::key4('m', 'u', 'l', ' ')),
        BlendMode::ColorBurn => Some(bytes::key4('i', 'd', 'i', 'v')),
        BlendMode::LinearBurn => Some(bytes::key4('l', 'b', 'r', 'n')),
        BlendMode::DarkerColor => Some(bytes::key4('d', 'k', 'C', 'l')),
        BlendMode::Lighten => Some(bytes::key4('l', 'i', 't', 'e')),
        BlendMode::Screen => Some(bytes::key4('s', 'c', 'r', 'n')),
        BlendMode::ColorDodge => Some(bytes::key4('d', 'i', 'v', ' ')),
        BlendMode::LinearDodge => Some(bytes::key4('l', 'd', 'd', 'g')),
        BlendMode::LighterColor => Some(bytes::key4('l', 'g', 'C', 'l')),
        BlendMode::Overlay => Some(bytes::key4('o', 'v', 'e', 'r')),
        BlendMode::SoftLight => Some(bytes::key4('s', 'L', 'i', 't')),
        BlendMode::HardLight => Some(bytes::key4('h', 'L', 'i', 't')),
        BlendMode::VividLight => Some(bytes::key4('v', 'L', 'i', 't')),
        BlendMode::LinearLight => Some(bytes::key4('l', 'L', 'i', 't')),
        BlendMode::PinLight => Some(bytes::key4('p', 'L', 'i', 't')),
        BlendMode::HardMix => Some(bytes::key4('h', 'M', 'i', 'x')),
        BlendMode::Difference => Some(bytes::key4('d', 'i', 'f', 'f')),
        BlendMode::Exclusion => Some(bytes::key4('s', 'm', 'u', 'd')),
        BlendMode::Subtract => Some(bytes::key4('f', 's', 'u', 'b')),
        BlendMode::Divide => Some(bytes::key4('f', 'd', 'i', 'v')),
        BlendMode::Hue => Some(bytes::key4('h', 'u', 'e', ' ')),
        BlendMode::Saturation => Some(bytes::key4('s', 'a', 't', ' ')),
        BlendMode::Color => Some(bytes::key4('c', 'o', 'l', 'r')),
        BlendMode::Luminosity => Some(bytes::key4('l', 'u', 'm', ' ')),
    }
}

/// The mode that `key` stands for. A key that is not known stands for `Normal`.
pub open spec fn mode_of(key: Seq<u8>) -> BlendMode {
    if key == bytes::key4('d', 'a', 'r', 'k') {
        BlendMode::Darken
    } else if key == bytes::key4('m', 'u', 'l', ' ') {
        BlendMode::Multiply
    } else if key == bytes::key4('i', 'd', 'i', 'v') {
        BlendMode::ColorBurn
    } else if key == bytes::key4('l', 'b', 'r', 'n') {
        BlendMode::LinearBurn
    } else if key == bytes::key4('d', 'k', 'C', 'l') {
        BlendMode::DarkerColor
    } else if key == bytes::key4('l', 'i', 't', 'e') {
        BlendMode::Lighten
    } else if key == bytes::key4('s', 'c', 'r', 'n') {
        BlendMode::Screen
    } else if key == bytes::key4('d', 'i', 'v', ' ') {
        BlendMode::ColorDodge
    } else if key == bytes::key4('l', 'd', 'd', 'g') {
        BlendMode::LinearDodge
    } else if key == bytes::key4('l', 'g', 'C', 'l') {
        BlendMode::LighterColor
    } else if key == bytes::key4('o', 'v', 'e', 'r') {
        BlendMode::Overlay
    } else if key == bytes::key4('s', 'L', 'i', 't') {
        BlendMode::SoftLight
    } else if key == bytes::key4('h', 'L', 'i', 't') {
        BlendMode::HardLight
    } else if key == bytes::key4('v', 'L', 'i', 't') {
        BlendMode::VividLight
    } else if key == bytes::key4('l', 'L', 'i', 't') {
        BlendMode::LinearLight
    } else if key == bytes::key4('p', 'L', 'i', 't') {
        BlendMode::PinLight
    } else if key == bytes::key4('h', 'M', 'i', 'x') {
        BlendMode::HardMix
    } else if key == bytes::key4('d', 'i', 'f', 'f') {
        BlendMode::Difference
    } else if key == bytes::key4('s', 'm', 'u', 'd') {
        BlendMode::Exclusion
    } else if key == bytes::key4('f', 's', 'u', 'b') {
        BlendMode::Subtract
    } else if key == bytes::key4('f', 'd', 'i', 'v') {
        BlendMode::Divide
    } else if key == bytes::key4('h', 'u', 'e', ' ') {
        BlendMode::Hue
    } else if key == bytes::key4('s', 'a', 't', ' ') {
        BlendMode::Saturation
    } else if key == bytes::key4('c', 'o', 'l', 'r') {
        BlendMode::Color
    } else if key == bytes::key4('l', 'u', 'm', ' ') {
        BlendMode::Luminosity
    } else {
        BlendMode::Normal
    }
}

/// Two modes with one key are the same mode.
pub proof fn keys_are_distinct(a: BlendMode, b: BlendMode)
    requires
        key_of(a) is Some,
        key_of(a) == key_of(b),
    ensures
        a == b,
{
    let x = key_of(a)->0;
    let y = key_of(b)->0;
    assert(x[0] == y[0] && x[1] == y[1] && x[2] == y[2] && x[3] == y[3]);
}

/// A key stands for the mode that has it, and for `Normal` if no mode has it.
pub proof fn modes_are_found_by_their_keys(key: Seq<u8>, mode: BlendMode)
    ensures
        key_of(mode) == Some(key) ==> mode_of(key) == mode,
        mode_of(key) == BlendMode::Normal || key_of(mode_of(key)) == Some(key),
{
    if key_of(mode) == Some(key) {
        assert(key_of(mode_of(key)) == Some(key));
        keys_are_distinct(mode_of(key), mode);
    }
}

impl BlendMode {
    /// The mode that a key of a file stands for. One that is not known is taken as `Normal`.
    pub fn from_key(key: &[u8; 4]) -> (m: BlendMode)
        ensures
            m == mode_of(key@),
    {
        if bytes::is_key(key, 'd', 'a', 'r', 'k') {
            BlendMode::Darken
        } else if bytes::is_key(key, 'm', 'u', 'l', ' ') {
            BlendMode::Multiply
        } else if bytes::is_key(key, 'i', 'd', 'i', 'v') {
            BlendMode::ColorBurn
        } else if bytes::is_key(key, 'l', 'b', 'r', 'n') {
            BlendMode::LinearBurn
        } else if bytes::is_key(key, 'd', 'k', 'C', 'l') {
            BlendMode::DarkerColor
        } else if bytes::is_key(key, 'l', 'i', 't', 'e') {
            BlendMode::Lighten
        } else if bytes::is_key(key, 's', 'c', 'r', 'n') {
            BlendMode::Screen
        } else if bytes::is_key(key, 'd', 'i', 'v', ' ') {
            BlendMode::ColorDodge
        } else if bytes::is_key(key, 'l', 'd', 'd', 'g') {
            BlendMode::LinearDodge
        } else if bytes::is_key(key, 'l', 'g', 'C', 'l') {
            BlendMode::LighterColor
        } else if bytes::is_key(key, 'o', 'v', 'e', 'r') {
            BlendMode::Overlay
        } else if bytes::is_key(key, 's', 'L', 'i', 't') {
            BlendMode::SoftLight
        } else if bytes::is_key(key, 'h', 'L', 'i', 't') {
            BlendMode::HardLight
        } else if bytes::is_key(key, 'v', 'L', 'i', 't') {
            BlendMode::VividLight
        } else if bytes::is_key(key, 'l', 'L', 'i', 't') {
            BlendMode::LinearLight
        } else if bytes::is_key(key, 'p', 'L', 'i', 't') {
            BlendMode::PinLight
        } else if bytes::is_key(key, 'h', 'M', 'i', 'x') {
            BlendMode::HardMix
        } else if bytes::is_key(key, 'd', 'i', 'f', 'f') {
            BlendMode::Difference
        } else if bytes::is_key(key, 's', 'm', 'u', 'd') {
            BlendMode::Exclusion
        } else if bytes::is_key(key, 'f', 's', 'u', 'b') {
            BlendMode::Subtract
        } else if bytes::is_key(key, 'f', 'd', 'i', 'v') {
            BlendMode::Divide
        } else if bytes::is_key(key, 'h', 'u', 'e', ' ') {
            BlendMode::Hue
        } else if bytes::is_key(key, 's', 'a', 't', ' ') {
            BlendMode::Saturation
        } else if bytes::is_key(key, 'c', 'o', 'l', 'r') {
            BlendMode::Color
        } else if bytes::is_key(key, 'l', 'u', 'm', ' ') {
            BlendMode::Luminosity
        } else {
            BlendMode::Normal
        }
    }
}

} // verus!
