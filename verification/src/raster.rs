use vstd::prelude::*;

use crate::modes::{MoveMode, ResizeMode};

verus! {

/// An RGBA image held as plain values: `width` x `height` pixels, row by row.
pub struct Raster {
    pub width: u32,
    pub height: u32,
    pub pixels: Vec<[u8; 4]>,
}

/// The transparent black that a pixel outside an image reads as.
pub open spec fn clear() -> [u8; 4] {
    [0u8, 0u8, 0u8, 0u8]
}

impl Raster {
    /// The pixels are exactly `width * height`.
    pub open spec fn wf(&self) -> bool {
        self.pixels@.len() == self.width as int * self.height as int
    }

    /// The pixel at column `x` and row `y`; transparent black outside the image.
    pub open spec fn at(&self, x: int, y: int) -> [u8; 4] {
        if 0 <= x < self.width && 0 <= y < self.height {
            self.pixels@[y * self.width + x]
        } else {
            clear()
        }
    }

    /// The pixel at column `x` and row `y` lies in the image and is not fully
    /// transparent.
    pub open spec fn opaque(&self, x: int, y: int) -> bool {
        0 <= x < self.width && 0 <= y < self.height && self.at(x, y)[3] != 0
    }
}

/// `(left, right, top, bottom)` is the smallest box holding every pixel of `r` that
/// is not fully transparent.
pub open spec fn is_opaque_box(r: Raster, b: (int, int, int, int)) -> bool {
    &&& forall|x: int, y: int| #[trigger] r.opaque(x, y) ==> b.0 <= x <= b.1 && b.2 <= y <= b.3
    &&& exists|y: int| #[trigger] r.opaque(b.0, y)
    &&& exists|y: int| #[trigger] r.opaque(b.1, y)
    &&& exists|x: int| #[trigger] r.opaque(x, b.2)
    &&& exists|x: int| #[trigger] r.opaque(x, b.3)
}

/// Some pixel of `r` is not fully transparent.
pub open spec fn has_opaque(r: Raster) -> bool {
    exists|x: int, y: int| #[trigger] r.opaque(x, y)
}

/// The smallest box holding the pixels of `r` that are not fully transparent.
pub open spec fn opaque_box(r: Raster) -> (int, int, int, int) {
    choose|b: (int, int, int, int)| is_opaque_box(r, b)
}

proof fn lemma_box_unique(r: Raster, b: (int, int, int, int))
    requires
        is_opaque_box(r, b),
    ensures
        opaque_box(r) == b,
{
    let c = opaque_box(r);
    assert(is_opaque_box(r, c));
    let y0 = choose|y: int| #[trigger] r.opaque(b.0, y);
    let y1 = choose|y: int| #[trigger] r.opaque(b.1, y);
    let x2 = choose|x: int| #[trigger] r.opaque(x, b.2);
    let x3 = choose|x: int| #[trigger] r.opaque(x, b.3);
    let v0 = choose|y: int| #[trigger] r.opaque(c.0, y);
    let v1 = choose|y: int| #[trigger] r.opaque(c.1, y);
    let u2 = choose|x: int| #[trigger] r.opaque(x, c.2);
    let u3 = choose|x: int| #[trigger] r.opaque(x, c.3);
    assert(c.0 <= b.0 && b.0 <= c.0);
    assert(c.1 >= b.1 && b.1 >= c.1);
    assert(c.2 <= b.2 && b.2 <= c.2);
    assert(c.3 >= b.3 && b.3 >= c.3);
}

/// The position of pixel (x, y) in a row-by-row list of `h` rows of `w` pixels.
proof fn lemma_index(x: int, y: int, w: int, h: int)
    by (nonlinear_arith)
    requires
        0 <= x < w,
        0 <= y < h,
    ensures
        0 <= y * w + x < h * w,
        h * w == w * h,
        y * w + x < (y + 1) * w,
        (y + 1) * w <= h * w,
{
}

/// The area of an image with `u32` sides fits in 64 bits.
proof fn lemma_area_bound(w: int, h: int)
    by (nonlinear_arith)
    requires
        0 <= w <= u32::MAX,
        0 <= h <= u32::MAX,
    ensures
        0 <= w * h <= u32::MAX * u32::MAX,
{
}

/// One more row of `w` pixels.
proof fn lemma_next_row(y: int, w: int)
    by (nonlinear_arith)
    ensures
        (y + 1) * w == y * w + w,
        y * w == w * y,
{
}

/// The pixel at column `x` and row `y` of `r`; transparent black outside the image.
pub fn pixel(r: &Raster, x: u64, y: u64) -> (p: [u8; 4])
    requires
        r.wf(),
    ensures
        p == r.at(x as int, y as int),
{
    let n = r.pixels.len();
    if x < r.width as u64 && y < r.height as u64 {
        proof {
            lemma_index(x as int, y as int, r.width as int, r.height as int);
        }
        let i = (y as usize) * (r.width as usize) + (x as usize);
        r.pixels[i]
    } else {
        [0u8, 0u8, 0u8, 0u8]
    }
}

/// The smallest box holding the pixels of `r` that are not fully transparent, as
/// `(left, right, top, bottom)`; `None` when every pixel is fully transparent.
pub fn find_opaque_box(r: &Raster) -> (b: Option<(u32, u32, u32, u32)>)
    requires
        r.wf(),
    ensures
        match b {
            Some(b) => has_opaque(*r) && opaque_box(*r) == (b.0 as int, b.1 as int, b.2 as int, b.3 as int) && b.0 <= b.1
                && b.2 <= b.3 && b.1 < r.width && b.3 < r.height,
            None => !has_opaque(*r),
        },
{
    let mut found = false;
    let mut minX: u32 = u32::MAX;
    let mut minY: u32 = u32::MAX;
    let mut maxX: u32 = 0;
    let mut maxY: u32 = 0;
    let ghost mut w0: int = 0;
    let ghost mut w1: int = 0;
    let ghost mut w2: int = 0;
    let ghost mut w3: int = 0;
    let mut y: u32 = 0;
    while y < r.height
        invariant
            r.wf(),
            y <= r.height,
            found ==> r.opaque(minX as int, w0) && r.opaque(maxX as int, w1) && r.opaque(w2, minY as int) && r.opaque(w3, maxY as int),
            forall|a: int, c: int| 0 <= c < y && #[trigger] r.opaque(a, c) ==> found && minX <= a <= maxX && minY <= c <= maxY,
        decreases r.height - y,
    {
        let mut x: u32 = 0;
        while x < r.width
            invariant
                r.wf(),
                y < r.height,
                x <= r.width,
                found ==> r.opaque(minX as int, w0) && r.opaque(maxX as int, w1) && r.opaque(w2, minY as int) && r.opaque(w3, maxY as int),
                forall|a: int, c: int|
                    (0 <= c < y || (c == y && 0 <= a < x)) && #[trigger] r.opaque(a, c) ==> found && minX <= a <= maxX && minY <= c <= maxY,
            decreases r.width - x,
        {
            let p = pixel(r, x as u64, y as u64);
            if p[3] != 0 {
                if !found || x < minX {
                    minX = x;
                    proof {
                        w0 = y as int;
                    }
                }
                if !found || x > maxX {
                    maxX = x;
                    proof {
                        w1 = y as int;
                    }
                }
                if !found || y < minY {
                    minY = y;
                    proof {
                        w2 = x as int;
                    }
                }
                if !found || y > maxY {
                    maxY = y;
                    proof {
                        w3 = x as int;
                    }
                }
                found = true;
            }
            assert(p[3] != 0 <==> r.opaque(x as int, y as int));
            x += 1;
        }
        y += 1;
    }
    if found {
        proof {
            let b = (minX as int, maxX as int, minY as int, maxY as int);
            assert forall|a: int, c: int| #[trigger] r.opaque(a, c) implies b.0 <= a <= b.1 && b.2 <= c <= b.3 by {}
            assert(r.opaque(b.0, w0));
            assert(r.opaque(b.1, w1));
            assert(r.opaque(w2, b.2));
            assert(r.opaque(w3, b.3));
            assert(is_opaque_box(*r, b));
            lemma_box_unique(*r, b);
        }
        Some((minX, maxX, minY, maxY))
    } else {
        proof {
            assert forall|a: int, c: int| !#[trigger] r.opaque(a, c) by {}
        }
        None
    }
}

/// A `width` x `height` image whose pixel (x, y) is pixel (x + dx, y + dy) of `r`
/// (transparent black where that lies outside `r`).
pub fn shifted_copy(r: &Raster, width: u32, height: u32, dx: u32, dy: u32) -> (out: Raster)
    requires
        r.wf(),
        width as int * height as int <= usize::MAX,
    ensures
        out.wf(),
        out.width == width,
        out.height == height,
        forall|x: int, y: int| 0 <= x < width && 0 <= y < height ==> #[trigger] out.at(x, y) == r.at(x + dx, y + dy),
{
    let mut pixels: Vec<[u8; 4]> = Vec::new();
    let mut y: u32 = 0;
    while y < height
        invariant
            r.wf(),
            width as int * height as int <= usize::MAX,
            y <= height,
            pixels@.len() == y as int * width as int,
            forall|a: int, c: int|
                0 <= a < width && 0 <= c < y ==> #[trigger] pixels@[c * width + a] == r.at(a + dx, c + dy),
        decreases height - y,
    {
        let ghost before = pixels@;
        let mut x: u32 = 0;
        while x < width
            invariant
                r.wf(),
                width as int * height as int <= usize::MAX,
                y < height,
                x <= width,
                pixels@.len() == y as int * width as int + x,
                pixels@.subrange(0, y as int * width as int) == before,
                forall|a: int| 0 <= a < x ==> #[trigger] pixels@[y * width + a] == r.at(a + dx, y + dy),
            decreases width - x,
        {
            proof {
                lemma_index(x as int, y as int, width as int, height as int);
            }
            let p = pixel(r, x as u64 + dx as u64, y as u64 + dy as u64);
            let ghost prev = pixels@;
            pixels.push(p);
            proof {
                assert(pixels@.subrange(0, y as int * width as int) =~= prev.subrange(0, y as int * width as int));
                assert forall|a: int| 0 <= a < x + 1 implies #[trigger] pixels@[y * width + a] == r.at(a + dx, y + dy) by {
                    if a < x {
                        assert(pixels@[y * width + a] == prev[y * width + a]);
                    }
                }
            }
            x += 1;
        }
        proof {
            lemma_next_row(y as int, width as int);
            assert forall|a: int, c: int|
                0 <= a < width && 0 <= c < y + 1 implies #[trigger] pixels@[c * width + a] == r.at(a + dx, c + dy) by {
                if c < y {
                    lemma_index(a, c, width as int, y as int);
                    assert(pixels@.subrange(0, y as int * width as int)[c * width + a] == pixels@[c * width + a]);
                    assert(before[c * width + a] == r.at(a + dx, c + dy));
                }
            }
        }
        y += 1;
    }
    let out = Raster { width, height, pixels };
    proof {
        lemma_next_row(height as int, width as int);
        assert forall|x: int, y: int| 0 <= x < width && 0 <= y < height implies #[trigger] out.at(x, y) == r.at(x + dx, y + dy) by {
            lemma_index(x, y, width as int, height as int);
            assert(out.at(x, y) == pixels@[y * width + x]);
        }
    }
    out
}

/// A side of the resize node's output: `span` read as an `i32`, plus `d`;
/// `None` when that sum overflows an `i32`. The side is that sum read as a `u32`.
pub open spec fn resized_side(span: u32, d: i32) -> Option<u32> {
    let s = span as i32;
    if s + d < i32::MIN || s + d > i32::MAX {
        None
    } else {
        Some(((s + d) as i32) as u32)
    }
}

/// An image of `w` x `h` RGBA pixels can be allocated: its bytes fit in a `usize`.
pub open spec fn allocatable(w: u32, h: u32) -> bool {
    w as int * h as int * 4 <= usize::MAX
}

/// The resize node's output: its width, its height, and the offset of its pixels
/// in the input. In `clamp` mode the output covers the smallest box holding the
/// pixels that are not fully transparent (both its first and its last column and
/// row), grown by `(dx, dy)`; in `resize` mode it
/// covers the whole input, grown by `(dx, dy)`. `None` when all pixels are fully
/// transparent in `clamp` mode, a side overflows, the image cannot be allocated, or
/// a pixel position of the input overflows a `u32`.
pub open spec fn spec_resize(r: Raster, mode: ResizeMode, dx: i32, dy: i32) -> Option<(u32, u32, int, int)> {
    match mode {
        ResizeMode::clamp => if !has_opaque(r) {
            None
        } else {
            let b = opaque_box(r);
            match (resized_side((b.1 - b.0 + 1) as u32, dx), resized_side((b.3 - b.2 + 1) as u32, dy)) {
                (Some(w), Some(h)) => if allocatable(w, h) && (w == 0 || h == 0 || (w - 1 + b.0 <= u32::MAX && h - 1
                    + b.2 <= u32::MAX)) {
                    Some((w, h, b.0, b.2))
                } else {
                    None
                },
                _ => None,
            }
        },
        ResizeMode::resize => match (resized_side(r.width, dx), resized_side(r.height, dy)) {
            (Some(w), Some(h)) => if allocatable(w, h) {
                Some((w, h, 0, 0))
            } else {
                None
            },
            _ => None,
        },
    }
}

/// `span` read as an `i32`, plus `d`, read as a `u32`; `None` on overflow.
fn side(span: u32, d: i32) -> (r: Option<u32>)
    ensures
        r == resized_side(span, d),
{
    let s = span as i32;
    match s.checked_add(d) {
        Some(v) => Some(v as u32),
        None => None,
    }
}

/// The resize node's output (see `spec_resize`): pixel (x, y) of the output is
/// pixel (x + left, y + top) of `r`, transparent black where that lies outside `r`.
pub fn resize(r: &Raster, mode: ResizeMode, dx: i32, dy: i32) -> (out: Option<Raster>)
    requires
        r.wf(),
    ensures
        match out {
            None => spec_resize(*r, mode, dx, dy) is None,
            Some(o) => {
                &&& o.wf()
                &&& spec_resize(*r, mode, dx, dy) matches Some(layout)
                &&& o.width == layout.0
                &&& o.height == layout.1
                &&& forall|x: int, y: int|
                    0 <= x < o.width && 0 <= y < o.height ==> #[trigger] o.at(x, y) == r.at(x + layout.2, y + layout.3)
            },
        },
{
    let (w, h, left, top) = match mode {
        ResizeMode::clamp => {
            let b = match find_opaque_box(r) {
                Some(b) => b,
                None => return None,
            };
            let w = match side(b.1 - b.0 + 1, dx) {
                Some(w) => w,
                None => return None,
            };
            let h = match side(b.3 - b.2 + 1, dy) {
                Some(h) => h,
                None => return None,
            };
            if w > 0 && h > 0 && ((w - 1) as u64 + b.0 as u64 > u32::MAX as u64 || (h - 1) as u64 + b.2 as u64 > u32::MAX as u64) {
                return None;
            }
            (w, h, b.0, b.2)
        },
        ResizeMode::resize => {
            let w = match side(r.width, dx) {
                Some(w) => w,
                None => return None,
            };
            let h = match side(r.height, dy) {
                Some(h) => h,
                None => return None,
            };
            (w, h, 0u32, 0u32)
        },
    };
    proof {
        lemma_area_bound(w as int, h as int);
    }
    if (w as u128) * (h as u128) * 4 > usize::MAX as u128 {
        return None;
    }
    Some(shifted_copy(r, w, h, left, top))
}


/// A `u32` read as an `i32`, plus `d`, read back as a `u32`, is the plain sum when
/// that sum is a `u32` and the `i32` sum does not overflow.
proof fn lemma_wrapped_sum(span: u32, d: i32)
    requires
        i32::MIN <= (span as i32) + d <= i32::MAX,
        0 <= span + d <= u32::MAX,
    ensures
        (((span as i32) + d) as i32) as u32 == span + d,
{
    assert((((span as i32) + d) as i32) as u32 == span + d) by (bit_vector)
        requires
            i32::MIN <= (span as i32) + d <= i32::MAX,
            0 <= span + d <= u32::MAX,
    ;
}

/// A `u32` read as an `i32` reads back as itself, and is negative when the `u32`
/// exceeds `i32::MAX`.
proof fn lemma_u32_as_i32(v: u32)
    ensures
        (v as i32) as u32 == v,
        v <= i32::MAX ==> v as i32 == v,
        v > i32::MAX ==> (v as i32) < 0,
        v > i32::MAX ==> v as i32 == v - 0x1_0000_0000,
{
    assert(v > i32::MAX ==> v as i32 == v - 0x1_0000_0000) by (bit_vector);
    assert((v as i32) as u32 == v) by (bit_vector);
    assert(v <= i32::MAX ==> v as i32 == v) by (bit_vector);
    assert(v > i32::MAX ==> (v as i32) < 0) by (bit_vector);
}

/// In `clamp` mode the resize node's output is the smallest box holding the pixels
/// that are not fully transparent, its width grown by `dx` and its height by `dy`
/// (whenever the grown side is a `u32`), taken from the box's top left corner; in
/// `resize` mode it is the whole input grown the same way, from its top left corner.
pub proof fn law_resize_sides(r: Raster, mode: ResizeMode, dx: i32, dy: i32, b: (int, int, int, int))
    requires
        mode == ResizeMode::clamp ==> is_opaque_box(r, b),
    ensures
        spec_resize(r, mode, dx, dy) matches Some((w, h, left, top)) ==> {
            let bw = if mode == ResizeMode::clamp { b.1 - b.0 + 1 } else { r.width as int };
            let bh = if mode == ResizeMode::clamp { b.3 - b.2 + 1 } else { r.height as int };
            &&& (mode == ResizeMode::clamp ==> left == b.0 && top == b.2)
            &&& (mode == ResizeMode::resize ==> left == 0 && top == 0)
            &&& (0 <= bw + dx <= u32::MAX ==> w == bw + dx)
            &&& (0 <= bh + dy <= u32::MAX ==> h == bh + dy)
        },
{
    if mode == ResizeMode::clamp {
        assert(has_opaque(r)) by {
            let y = choose|y: int| #[trigger] r.opaque(b.0, y);
            assert(r.opaque(b.0, y));
        }
        lemma_box_unique(r, b);
        let y1 = choose|y: int| #[trigger] r.opaque(b.1, y);
        let x3 = choose|x: int| #[trigger] r.opaque(x, b.3);
        let y0 = choose|y: int| #[trigger] r.opaque(b.0, y);
        let x2 = choose|x: int| #[trigger] r.opaque(x, b.2);
        assert(0 <= b.0 <= b.1 < r.width);
        assert(0 <= b.2 <= b.3 < r.height);
        let sw = (b.1 - b.0 + 1) as u32;
        let sh = (b.3 - b.2 + 1) as u32;
        if resized_side(sw, dx) is Some && 0 <= sw + dx <= u32::MAX {
            lemma_wrapped_sum(sw, dx);
        }
        if resized_side(sh, dy) is Some && 0 <= sh + dy <= u32::MAX {
            lemma_wrapped_sum(sh, dy);
        }
    } else {
        if resized_side(r.width, dx) is Some && 0 <= r.width + dx <= u32::MAX {
            lemma_wrapped_sum(r.width, dx);
        }
        if resized_side(r.height, dy) is Some && 0 <= r.height + dy <= u32::MAX {
            lemma_wrapped_sum(r.height, dy);
        }
    }
}

/// The size of the move node's output for an input of `width` x `height` pixels
/// moved by `(dx, dy)` (rounded up): in `wrap` mode the input's size; in `extend`
/// mode the input's size grown by the offset; in `clamp` mode by the negative part
/// of the offset only. `Err(1)` when the offset leaves no column, `Err(2)` when it
/// leaves no row (`clamp` and `extend`); `None` when a sum overflows an `i32` or the
/// image cannot be allocated.
pub open spec fn spec_move_size(width: u32, height: u32, dx: i32, dy: i32, mode: MoveMode) -> Option<Result<(u32, u32), u16>> {
    let sw = width as i32;
    let sh = height as i32;
    match mode {
        MoveMode::wrap => if allocatable(width, height) {
            Some(Ok((width, height)))
        } else {
            None
        },
        _ => if sw + dx > i32::MAX || sw + dx < i32::MIN {
            None
        } else if sw + dx <= 0 {
            Some(Err(1u16))
        } else if sh + dy > i32::MAX || sh + dy < i32::MIN {
            None
        } else if sh + dy <= 0 {
            Some(Err(2u16))
        } else {
            let w = if mode == MoveMode::clamp && dx > 0 { sw as u32 } else { ((sw + dx) as i32) as u32 };
            let h = if mode == MoveMode::clamp && dy > 0 { sh as u32 } else { ((sh + dy) as i32) as u32 };
            if allocatable(w, h) {
                Some(Ok((w, h)))
            } else {
                None
            }
        },
    }
}

/// The move node's output size: in `extend` mode the input's size plus the offset
/// (when that sum is a `u32`; a side beyond `i32::MAX` is read as an `i32` first);
/// in `clamp` mode the input's size plus the negative part of the offset only (a
/// positive offset keeps that side), so it never grows; in `wrap` mode the input's
/// size.
pub proof fn law_move_sizes(width: u32, height: u32, dx: i32, dy: i32, mode: MoveMode)
    ensures
        spec_move_size(width, height, dx, dy, mode) matches Some(Ok((w, h))) ==> match mode {
            MoveMode::extend => (width + dx <= u32::MAX ==> w == width + dx) && (height + dy <= u32::MAX ==> h
                == height + dy),
            MoveMode::clamp => w == width + (if dx < 0 { dx as int } else { 0 }) && h == height + (if dy < 0 {
                dy as int
            } else {
                0
            }) && w <= width && h <= height,
            MoveMode::wrap => w == width && h == height,
        },
{
    lemma_u32_as_i32(width);
    lemma_u32_as_i32(height);
    let sw = width as i32;
    let sh = height as i32;
    if mode != MoveMode::wrap && sw + dx > 0 && i32::MIN <= sw + dx <= i32::MAX && sh + dy > 0 && i32::MIN <= sh + dy <= i32::MAX {
        if !(mode == MoveMode::clamp && dx > 0) {
            if width <= i32::MAX {
                lemma_wrapped_sum(width, dx);
            }
        }
        if !(mode == MoveMode::clamp && dy > 0) {
            if height <= i32::MAX {
                lemma_wrapped_sum(height, dy);
            }
        }
    }
}

/// The size of the move node's output (see `spec_move_size`).
pub fn move_size(width: u32, height: u32, dx: i32, dy: i32, mode: MoveMode) -> (r: Option<Result<(u32, u32), u16>>)
    ensures
        r == spec_move_size(width, height, dx, dy, mode),
{
    let sw = width as i32;
    let sh = height as i32;
    let (w, h) = match mode {
        MoveMode::wrap => (width, height),
        _ => {
            let across = match sw.checked_add(dx) {
                Some(v) => v,
                None => return None,
            };
            if across <= 0 {
                return Some(Err(1));
            }
            let down = match sh.checked_add(dy) {
                Some(v) => v,
                None => return None,
            };
            if down <= 0 {
                return Some(Err(2));
            }
            let w = if mode == MoveMode::clamp && dx > 0 { sw as u32 } else { across as u32 };
            let h = if mode == MoveMode::clamp && dy > 0 { sh as u32 } else { down as u32 };
            (w, h)
        },
    };
    proof {
        lemma_area_bound(w as int, h as int);
    }
    if (w as u128) * (h as u128) * 4 > usize::MAX as u128 {
        return None;
    }
    Some(Ok((w, h)))
}

} // verus!
