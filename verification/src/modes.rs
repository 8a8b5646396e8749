use vstd::prelude::*;
use vstd::std_specs::convert::TryFromSpecImpl;

verus! {

// Each mode enum is chosen by an integer input: the variant at position `v`
// (counting from 0, in declaration order) for `v` in range, and an error otherwise.

/// How the blend node combines a foreground with a background.
#[derive(Clone, Copy, PartialEq, Eq, Debug, Structural)]
pub enum BlendMode {
    multiply,
    screen,
    darken,
    lighten,
    colorDodge,
    colorBurn,
    linearDodge,
    linearBurn,
}

/// The blend mode at position `v`, if any.
pub open spec fn blend_mode_at(v: i64) -> Result<BlendMode, ()> {
    if v == 0 {
        Ok(BlendMode::multiply)
    } else if v == 1 {
        Ok(BlendMode::screen)
    } else if v == 2 {
        Ok(BlendMode::darken)
    } else if v == 3 {
        Ok(BlendMode::lighten)
    } else if v == 4 {
        Ok(BlendMode::colorDodge)
    } else if v == 5 {
        Ok(BlendMode::colorBurn)
    } else if v == 6 {
        Ok(BlendMode::linearDodge)
    } else if v == 7 {
        Ok(BlendMode::linearBurn)
    } else {
        Err(())
    }
}

impl TryFrom<i64> for BlendMode {
    type Error = ();

    fn try_from(v: i64) -> (r: Result<BlendMode, ()>) {
        if v == 0 {
            Ok(BlendMode::multiply)
        } else if v == 1 {
            Ok(BlendMode::screen)
        } else if v == 2 {
            Ok(BlendMode::darken)
        } else if v == 3 {
            Ok(BlendMode::lighten)
        } else if v == 4 {
            Ok(BlendMode::colorDodge)
        } else if v == 5 {
            Ok(BlendMode::colorBurn)
        } else if v == 6 {
            Ok(BlendMode::linearDodge)
        } else if v == 7 {
            Ok(BlendMode::linearBurn)
        } else {
            Err(())
        }
    }
}

impl TryFromSpecImpl<i64> for BlendMode {
    open spec fn obeys_try_from_spec() -> bool {
        true
    }

    open spec fn try_from_spec(v: i64) -> Result<BlendMode, ()> {
        blend_mode_at(v)
    }
}

/// How the compose node combines a foreground with a background.
#[derive(Clone, Copy, PartialEq, Eq, Debug, Structural)]
pub enum CompositionType {
    overlay,
    mask,
    inverseMask,
    atop,
    neither,
    foreground,
}

/// The composition type at position `v`, if any.
pub open spec fn composition_type_at(v: i64) -> Result<CompositionType, ()> {
    if v == 0 {
        Ok(CompositionType::overlay)
    } else if v == 1 {
        Ok(CompositionType::mask)
    } else if v == 2 {
        Ok(CompositionType::inverseMask)
    } else if v == 3 {
        Ok(CompositionType::atop)
    } else if v == 4 {
        Ok(CompositionType::neither)
    } else if v == 5 {
        Ok(CompositionType::foreground)
    } else {
        Err(())
    }
}

impl TryFrom<i64> for CompositionType {
    type Error = ();

    fn try_from(v: i64) -> (r: Result<CompositionType, ()>) {
        if v == 0 {
            Ok(CompositionType::overlay)
        } else if v == 1 {
            Ok(CompositionType::mask)
        } else if v == 2 {
            Ok(CompositionType::inverseMask)
        } else if v == 3 {
            Ok(CompositionType::atop)
        } else if v == 4 {
            Ok(CompositionType::neither)
        } else if v == 5 {
            Ok(CompositionType::foreground)
        } else {
            Err(())
        }
    }
}

impl TryFromSpecImpl<i64> for CompositionType {
    open spec fn obeys_try_from_spec() -> bool {
        true
    }

    open spec fn try_from_spec(v: i64) -> Result<CompositionType, ()> {
        composition_type_at(v)
    }
}

/// What the move node does with pixels that leave the image.
#[derive(Clone, Copy, PartialEq, Eq, Debug, Structural)]
pub enum MoveMode {
    clamp,
    extend,
    wrap,
}

/// The move mode at position `v`, if any.
pub open spec fn move_mode_at(v: i64) -> Result<MoveMode, ()> {
    if v == 0 {
        Ok(MoveMode::clamp)
    } else if v == 1 {
        Ok(MoveMode::extend)
    } else if v == 2 {
        Ok(MoveMode::wrap)
    } else {
        Err(())
    }
}

impl TryFrom<i64> for MoveMode {
    type Error = ();

    fn try_from(v: i64) -> (r: Result<MoveMode, ()>) {
        if v == 0 {
            Ok(MoveMode::clamp)
        } else if v == 1 {
            Ok(MoveMode::extend)
        } else if v == 2 {
            Ok(MoveMode::wrap)
        } else {
            Err(())
        }
    }
}

impl TryFromSpecImpl<i64> for MoveMode {
    open spec fn obeys_try_from_spec() -> bool {
        true
    }

    open spec fn try_from_spec(v: i64) -> Result<MoveMode, ()> {
        move_mode_at(v)
    }
}

/// Whether the resize node crops the image or resizes its contents.
#[derive(Clone, Copy, PartialEq, Eq, Debug, Structural)]
pub enum ResizeMode {
    clamp,
    resize,
}

/// The resize mode at position `v`, if any.
pub open spec fn resize_mode_at(v: i64) -> Result<ResizeMode, ()> {
    if v == 0 {
        Ok(ResizeMode::clamp)
    } else if v == 1 {
        Ok(ResizeMode::resize)
    } else {
        Err(())
    }
}

impl TryFrom<i64> for ResizeMode {
    type Error = ();

    fn try_from(v: i64) -> (r: Result<ResizeMode, ()>) {
        if v == 0 {
            Ok(ResizeMode::clamp)
        } else if v == 1 {
            Ok(ResizeMode::resize)
        } else {
            Err(())
        }
    }
}

impl TryFromSpecImpl<i64> for ResizeMode {
    open spec fn obeys_try_from_spec() -> bool {
        true
    }

    open spec fn try_from_spec(v: i64) -> Result<ResizeMode, ()> {
        resize_mode_at(v)
    }
}

/// How the rotation node samples the rotated image.
#[derive(Clone, Copy, PartialEq, Eq, Debug, Structural)]
pub enum RotationMode {
    fast,
    precise,
    inPlace,
}

/// The rotation mode at position `v`, if any.
pub open spec fn rotation_mode_at(v: i64) -> Result<RotationMode, ()> {
    if v == 0 {
        Ok(RotationMode::fast)
    } else if v == 1 {
        Ok(RotationMode::precise)
    } else if v == 2 {
        Ok(RotationMode::inPlace)
    } else {
        Err(())
    }
}

impl TryFrom<i64> for RotationMode {
    type Error = ();

    fn try_from(v: i64) -> (r: Result<RotationMode, ()>) {
        if v == 0 {
            Ok(RotationMode::fast)
        } else if v == 1 {
            Ok(RotationMode::precise)
        } else if v == 2 {
            Ok(RotationMode::inPlace)
        } else {
            Err(())
        }
    }
}

impl TryFromSpecImpl<i64> for RotationMode {
    open spec fn obeys_try_from_spec() -> bool {
        true
    }

    open spec fn try_from_spec(v: i64) -> Result<RotationMode, ()> {
        rotation_mode_at(v)
    }
}

/// How the scale node samples the scaled image.
#[derive(Clone, Copy, PartialEq, Eq, Debug, Structural)]
pub enum ScaleMode {
    fast,
    precise,
}

/// The scale mode at position `v`, if any.
pub open spec fn scale_mode_at(v: i64) -> Result<ScaleMode, ()> {
    if v == 0 {
        Ok(ScaleMode::fast)
    } else if v == 1 {
        Ok(ScaleMode::precise)
    } else {
        Err(())
    }
}

impl TryFrom<i64> for ScaleMode {
    type Error = ();

    fn try_from(v: i64) -> (r: Result<ScaleMode, ()>) {
        if v == 0 {
            Ok(ScaleMode::fast)
        } else if v == 1 {
            Ok(ScaleMode::precise)
        } else {
            Err(())
        }
    }
}

impl TryFromSpecImpl<i64> for ScaleMode {
    open spec fn obeys_try_from_spec() -> bool {
        true
    }

    open spec fn try_from_spec(v: i64) -> Result<ScaleMode, ()> {
        scale_mode_at(v)
    }
}

} // verus!
