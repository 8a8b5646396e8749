use vstd::prelude::*;

verus! {

// Colors are RGBA values with 8-bit channels, held as `[red, green, blue, alpha]`.

/// `a + b`, or 255 when that does not fit in a channel.
pub open spec fn add_channel(a: u8, b: u8) -> u8 {
    if a + b > 255 {
        255
    } else {
        (a + b) as u8
    }
}

/// `a - b`, or 0 when that is negative.
pub open spec fn sub_channel(a: u8, b: u8) -> u8 {
    if a < b {
        0
    } else {
        (a - b) as u8
    }
}

/// The color with each channel of `lhs` and `rhs` added, saturating at 255.
pub open spec fn spec_saturating_add(lhs: [u8; 4], rhs: [u8; 4]) -> [u8; 4] {
    [
        add_channel(lhs[0], rhs[0]),
        add_channel(lhs[1], rhs[1]),
        add_channel(lhs[2], rhs[2]),
        add_channel(lhs[3], rhs[3]),
    ]
}

/// The color with the red, green and blue channels inverted and alpha kept.
pub open spec fn spec_invert(c: [u8; 4]) -> [u8; 4] {
    [(255 - c[0]) as u8, (255 - c[1]) as u8, (255 - c[2]) as u8, c[3]]
}

/// The sum of the red, green and blue channels.
pub open spec fn lightness(c: [u8; 4]) -> int {
    c[0] + c[1] + c[2]
}

/// The lighter of two colors; the background on a tie.
pub open spec fn spec_lighten(foreground: [u8; 4], background: [u8; 4]) -> [u8; 4] {
    if lightness(foreground) > lightness(background) {
        foreground
    } else {
        background
    }
}

/// The darker of two colors; the foreground on a tie.
pub open spec fn spec_darken(foreground: [u8; 4], background: [u8; 4]) -> [u8; 4] {
    if lightness(foreground) > lightness(background) {
        background
    } else {
        foreground
    }
}

/// Inverting a color twice gives it back.
pub proof fn law_invert_twice(c: [u8; 4])
    ensures
        spec_invert(spec_invert(c)) == c,
{
    assert(spec_invert(spec_invert(c))@ =~= c@);
}

/// Lightening and darkening share out a pair of colors: each gets one of them.
pub proof fn law_lighten_darken_split(foreground: [u8; 4], background: [u8; 4])
    ensures
        (spec_lighten(foreground, background) == foreground && spec_darken(foreground, background) == background)
            || (spec_lighten(foreground, background) == background && spec_darken(foreground, background) == foreground),
{
}

/// Lightening picks the foreground, and darkening the background, exactly when the
/// foreground's red, green and blue channels add up to more than the background's
/// (the plain sums, which reach 765); otherwise lightening picks the background and
/// darkening the foreground.
pub proof fn law_lighten_darken_by_channel_sums(f: [u8; 4], b: [u8; 4])
    ensures
        f[0] as int + f[1] as int + f[2] as int > b[0] as int + b[1] as int + b[2] as int ==> spec_lighten(f, b) == f
            && spec_darken(f, b) == b,
        f[0] as int + f[1] as int + f[2] as int <= b[0] as int + b[1] as int + b[2] as int ==> spec_lighten(f, b) == b
            && spec_darken(f, b) == f,
{
}

/// A color none of whose red, green and blue channels is darker than another's,
/// and one of them lighter, is the lighter of the two.
pub proof fn law_lighter_channels_win(f: [u8; 4], b: [u8; 4])
    requires
        f[0] >= b[0],
        f[1] >= b[1],
        f[2] >= b[2],
        f[0] > b[0] || f[1] > b[1] || f[2] > b[2],
    ensures
        spec_lighten(f, b) == f,
        spec_darken(f, b) == b,
        spec_lighten(b, f) == f,
        spec_darken(b, f) == b,
{
    law_lighten_darken_by_channel_sums(f, b);
    law_lighten_darken_by_channel_sums(b, f);
}

/// Adds two colors channel by channel, saturating at 255.
pub fn saturating_add_rgba(lhs: &[u8; 4], rhs: &[u8; 4]) -> (r: [u8; 4])
    ensures
        r == spec_saturating_add(*lhs, *rhs),
{
    let r = [
        lhs[0].saturating_add(rhs[0]),
        lhs[1].saturating_add(rhs[1]),
        lhs[2].saturating_add(rhs[2]),
        lhs[3].saturating_add(rhs[3]),
    ];
    assert(r@ =~= spec_saturating_add(*lhs, *rhs)@);
    r
}

/// Subtracts `rhs` from `lhs` channel by channel, stopping at 0.
pub fn saturating_subtract_rgba(lhs: &[u8; 4], rhs: &[u8; 4]) -> (r: [u8; 4])
    ensures
        forall|i: int| 0 <= i < 4 ==> #[trigger] r[i] == sub_channel(lhs[i], rhs[i]),
{
    [
        lhs[0].saturating_sub(rhs[0]),
        lhs[1].saturating_sub(rhs[1]),
        lhs[2].saturating_sub(rhs[2]),
        lhs[3].saturating_sub(rhs[3]),
    ]
}

/// Inverts the red, green and blue channels of a color; alpha is kept.
pub fn invert_rgba(c: &[u8; 4]) -> (r: [u8; 4])
    ensures
        r == spec_invert(*c),
{
    let r = [255 - c[0], 255 - c[1], 255 - c[2], c[3]];
    assert(r@ =~= spec_invert(*c)@);
    r
}

/// The inverse of the saturating sum of two colors.
pub fn inverse_of_add(foreground: &[u8; 4], background: &[u8; 4]) -> (r: [u8; 4])
    ensures
        r == spec_invert(spec_saturating_add(*foreground, *background)),
{
    let sum = saturating_add_rgba(foreground, background);
    invert_rgba(&sum)
}

/// The lighter of two colors: the foreground when its red, green and blue
/// channels add up to more than the background's, else the background.
pub fn lighten_formula(foreground: &[u8; 4], background: &[u8; 4]) -> (r: [u8; 4])
    ensures
        r == spec_lighten(*foreground, *background),
{
    let flightness = foreground[0] as u32 + foreground[1] as u32 + foreground[2] as u32;
    let blightness = background[0] as u32 + background[1] as u32 + background[2] as u32;
    if flightness > blightness {
        *foreground
    } else {
        *background
    }
}

/// The darker of two colors: the background when the foreground's red, green and
/// blue channels add up to more than the background's, else the foreground.
pub fn darken_formula(foreground: &[u8; 4], background: &[u8; 4]) -> (r: [u8; 4])
    ensures
        r == spec_darken(*foreground, *background),
{
    let flightness = foreground[0] as u32 + foreground[1] as u32 + foreground[2] as u32;
    let blightness = background[0] as u32 + background[1] as u32 + background[2] as u32;
    if flightness > blightness {
        *background
    } else {
        *foreground
    }
}

} // verus!
