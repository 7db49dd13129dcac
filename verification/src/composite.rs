//! Which part of the canvas a row of output covers, and the values of layers and masks there.
use vstd::prelude::*;

use crate::bounds::Bounds;
use crate::channel;
use crate::channel::Channel;
use crate::layer_info;
use crate::layers;
use crate::node;
use crate::node::{Mask, Pixels};

verus! {

/// A rectangle of output pixels where the image is reduced to 1 / 2^`level`. It may reach beyond
/// the canvas, which is transparent there.
#[derive(Clone, Copy, Debug)]
pub struct Region {
    pub level: u32,
    pub x: i64,
    pub y: i64,
    pub width: usize,
    pub height: usize,
}

/// How many pixels of the canvas, in each direction, one output pixel stands for.
pub open spec fn scale(level: u32) -> int {
    vstd::arithmetic::power2::pow2(level as nat) as int
}

/// How many pixels of the canvas, in each direction, one output pixel stands for.
pub fn scale_of(level: u32) -> (r: u64)
    requires
        level < 64,
    ensures
        r == scale(level),
        r > 0,
{
    proof {
        vstd::bits::lemma_u64_pow2_no_overflow(level as nat);
        vstd::bits::lemma_u64_shl_is_mul(1, level as u64);
        vstd::arithmetic::power2::lemma_pow2_pos(level as nat);
    }
    1u64 << (level as u64)
}

impl Region {
    /// How many pixels of the canvas the region takes, as a measure of the work. Bits that do not
    /// fit are lost.
    pub fn canvas_area(&self) -> (r: usize)
        requires
            self.width * self.height <= usize::MAX,
            2 * self.level < usize::BITS,
        ensures
            r == ((self.width * self.height) as usize) << ((2 * self.level) as usize),
            self.width * self.height * (scale(self.level) * scale(self.level)) <= usize::MAX ==> r
                == self.width * self.height * (scale(self.level) * scale(self.level)),
    {
        let area: usize = self.width * self.height;
        let shift: usize = 2 * self.level as usize;
        proof {
            let level = self.level as nat;
            vstd::arithmetic::power2::lemma_pow2_adds(level, level);
            if area * (scale(self.level) * scale(self.level)) <= usize::MAX {
                vstd::bits::lemma_usize_shl_is_mul(area, shift);
            }
        }
        area << shift
    }

    /// The first column of the canvas.
    pub open spec fn left(self) -> int {
        self.x * scale(self.level)
    }

    /// The column of the canvas after the last.
    pub open spec fn right(self) -> int {
        (self.x + self.width) * scale(self.level)
    }

    /// The first row of the canvas that output row `row` covers.
    pub open spec fn top(self, row: int) -> int {
        (self.y + row) * scale(self.level)
    }
}

/// The part of the canvas that one row of output covers.
#[derive(Clone, Copy, Debug)]
pub struct RowWindow {
    pub x0: usize,
    pub x1: usize,
    pub y0: u32,
    pub y1: u32,
}

/// `v` moved to the nearest number from 0 to `max`.
pub open spec fn within_size(v: int, max: int) -> int {
    if v < 0 {
        0
    } else if v > max {
        max
    } else {
        v
    }
}

/// `v` moved to the nearest number from 0 to `max`.
fn hold_within(v: i128, max: u32) -> (r: u32)
    ensures
        r == within_size(v as int, max as int),
{
    if v < 0 {
        0
    } else if v > max as i128 {
        max
    } else {
        v as u32
    }
}

/// `a * s` for a coordinate and a scale.
fn scaled(a: i128, s: u64) -> (r: i128)
    requires
        -9223372036854775808 <= a <= 27670116110564327423,
        s <= 4611686018427387904,
    ensures
        r == a * s,
        -9223372036854775808 * 4611686018427387904 <= r <= 27670116110564327423
            * 4611686018427387904,
{
    assert(-9223372036854775808 * 4611686018427387904 <= a * s <= 27670116110564327423
        * 4611686018427387904) by (nonlinear_arith)
        requires
            -9223372036854775808 <= a <= 27670116110564327423,
            0 <= s <= 4611686018427387904,
    ;
    a * s as i128
}

/// The largest scale below a level.
proof fn scale_bound(level: u32)
    requires
        level < 63,
    ensures
        scale(level) <= 4611686018427387904,
{
    vstd::arithmetic::power2::lemma2_to64_rest();
    if level < 62 {
        vstd::arithmetic::power2::lemma_pow2_strictly_increases(level as nat, 62);
    }
}

/// The part of a canvas of the given size that output row `row` of the region covers. There is none
/// where the row lies beside the canvas.
pub fn row_window(width: u32, height: u32, region: &Region, row: usize) -> (r: Option<RowWindow>)
    requires
        region.level < 63,
    ensures
        ({
            let x0 = within_size(region.left(), width as int);
            let x1 = within_size(region.right(), width as int);
            let y0 = within_size(region.top(row as int), height as int);
            let y1 = within_size(
                region.top(row as int) + scale(region.level),
                height as int,
            );
            match r {
                Some(w) => w.x0 == x0 && w.x1 == x1 && w.y0 == y0 && w.y1 == y1 && x0 < x1 && y0
                    < y1,
                None => x0 >= x1 || y0 >= y1,
            }
        }),
{
    let s: u64 = scale_of(region.level);
    proof {
        scale_bound(region.level);
    }
    let left: i128 = scaled(region.x as i128, s);
    let right: i128 = scaled(region.x as i128 + region.width as i128, s);
    let top: i128 = scaled(region.y as i128 + row as i128, s);
    let x0: u32 = hold_within(left, width);
    let x1: u32 = hold_within(right, width);
    let y0: u32 = hold_within(top, height);
    let y1: u32 = hold_within(top + s as i128, height);
    if x0 < x1 && y0 < y1 {
        Some(RowWindow { x0: x0 as usize, x1: x1 as usize, y0, y1 })
    } else {
        None
    }
}

/// The pixels of the window of an output row are those of the canvas that the row covers.
pub proof fn windows_hold_what_is_covered(
    width: u32,
    height: u32,
    region: Region,
    row: int,
    x: int,
    y: int,
)
    ensures
        ({
            let top = region.top(row);
            let bottom = top + scale(region.level);
            &&& within_size(region.left(), width as int) <= x < within_size(
                region.right(),
                width as int,
            ) <==> region.left() <= x < region.right() && 0 <= x < width
            &&& within_size(top, height as int) <= y < within_size(bottom, height as int) <==> top
                <= y < bottom && 0 <= y < height
        }),
{
}

/// Row `y` of the canvas is covered by exactly one output row.
pub proof fn rows_are_shared_out(region: Region, y: int, o: int)
    ensures
        (y - region.top(0)) / scale(region.level) == o <==> region.top(o) <= y < region.top(o)
            + scale(region.level),
{
    let s = scale(region.level);
    vstd::arithmetic::power2::lemma_pow2_pos(region.level as nat);
    let d = y - region.y * s;
    assert((region.y + 0) * s == region.y * s);
    assert((region.y + o) * s == region.y * s + o * s) by (nonlinear_arith);
    assert(d / s == o <==> o * s <= d < o * s + s) by (nonlinear_arith)
        requires
            s > 0,
    ;
}

/// The output column of the region to which column `x` of the canvas belongs.
pub open spec fn column(region: Region, x: int) -> int {
    (x - region.left()) / scale(region.level)
}

/// Column `x` of the canvas belongs to output column `o` if and only if it is one of the columns
/// that `o` stands for. So each output column has its own, as many as the scale.
pub proof fn columns_are_shared_out(region: Region, x: int, o: int)
    ensures
        column(region, x) == o <==> (region.x + o) * scale(region.level) <= x < (region.x + o + 1)
            * scale(region.level),
{
    let s = scale(region.level);
    vstd::arithmetic::power2::lemma_pow2_pos(region.level as nat);
    let d = x - region.x * s;
    assert((region.x + o) * s == region.x * s + o * s) by (nonlinear_arith);
    assert((region.x + o + 1) * s == region.x * s + o * s + s) by (nonlinear_arith);
    assert(d / s == o <==> o * s <= d < o * s + s) by (nonlinear_arith)
        requires
            s > 0,
    ;
}

/// The output column of the region to which column `x` of the canvas belongs.
pub fn column_of(region: &Region, x: usize) -> (r: usize)
    requires
        region.level < 63,
        region.left() <= x < region.right(),
    ensures
        r == column(*region, x as int),
        r < region.width,
{
    let s: u64 = scale_of(region.level);
    proof {
        scale_bound(region.level);
        columns_are_shared_out(*region, x as int, column(*region, x as int));
    }
    let left: i128 = scaled(region.x as i128, s);
    let d: i128 = x as i128 - left;
    proof {
        let sc = scale(region.level);
        let c = column(*region, x as int);
        assert(0 <= c < region.width) by (nonlinear_arith)
            requires
                sc > 0,
                (region.x + c) * sc <= x,
                x < (region.x + c + 1) * sc,
                region.x * sc <= x,
                x < (region.x + region.width) * sc,
        ;
    }
    (d / s as i128) as usize
}

/// The columns of `window` in which a node with these bounds is drawn.
pub open spec fn span_of(bounds: Bounds, window: (usize, usize)) -> (int, int) {
    let from = if bounds.x0 < 0 {
        0
    } else {
        bounds.x0 as int
    };
    let to = if bounds.x1 < 0 {
        0
    } else {
        bounds.x1 as int
    };
    let x0 = if from > window.0 {
        from
    } else {
        window.0 as int
    };
    let x1 = if to < window.1 {
        to
    } else {
        window.1 as int
    };
    (
        x0,
        if x1 > x0 {
            x1
        } else {
            x0
        },
    )
}

/// The columns of `window` in which a node with these bounds is drawn.
pub fn span(bounds: Bounds, window: (usize, usize)) -> (r: (usize, usize))
    ensures
        r.0 == span_of(bounds, window).0,
        r.1 == span_of(bounds, window).1,
{
    let from: usize = if bounds.x0 < 0 { 0 } else { bounds.x0 as usize };
    let to: usize = if bounds.x1 < 0 { 0 } else { bounds.x1 as usize };
    let x0: usize = if from > window.0 { from } else { window.0 };
    let x1: usize = if to < window.1 { to } else { window.1 };
    (x0, if x1 > x0 { x1 } else { x0 })
}

/// A column is in the span of a node if and only if it is in the window and in the bounds.
pub proof fn span_is_the_common_part(bounds: Bounds, window: (usize, usize), x: int)
    requires
        0 <= x,
    ensures
        span_of(bounds, window).0 <= x < span_of(bounds, window).1 <==> window.0 <= x < window.1
            && bounds.x0 <= x < bounds.x1,
        span_of(bounds, window).0 <= span_of(bounds, window).1,
{
}

/// The value of a channel at a point of the canvas, where the channel has one. Its first row and
/// column are those of `rect`.
pub open spec fn value_at(
    c: channel::ChannelView,
    d: Seq<u8>,
    rect: Bounds,
    x: int,
    y: int,
) -> Option<u8> {
    if rect.y0 <= y && 0 <= x - rect.x0 < c.width {
        Some(channel::row_pixels(c, d, y - rect.y0)[x - rect.x0])
    } else {
        None
    }
}

/// The value of a channel at a point of the canvas, or `other` where it has none.
pub open spec fn value_or(
    c: channel::ChannelView,
    d: Seq<u8>,
    rect: Bounds,
    x: int,
    y: int,
    other: u8,
) -> u8 {
    match value_at(c, d, rect, x, y) {
        Some(v) => v,
        None => other,
    }
}

/// The values of a channel in the columns from `x0` to `x1` of row `y`, with `other` where it has
/// none.
fn channel_row(
    c: &Channel,
    data: &[u8],
    rect: Bounds,
    y: i32,
    x0: usize,
    x1: usize,
    other: u8,
) -> (r: Vec<u8>)
    requires
        x0 <= x1,
    ensures
        r@ == Seq::new(
            (x1 - x0) as nat,
            |i: int| value_or(c@, data@, rect, x0 + i, y as int, other),
        ),
{
    let width: usize = c.row_width();
    let inside = rect.y0 <= y;
    let row: usize = if inside { (y as i64 - rect.y0 as i64) as usize } else { 0 };
    let mut pixels: Vec<u8> = vec![0u8; width];
    if inside {
        c.read_row(data, row, pixels.as_mut_slice());
        assert(pixels@ =~= channel::row_pixels(c@, data@, row as int));
    }
    let mut r: Vec<u8> = Vec::new();
    let mut x: usize = x0;
    while x < x1
        invariant
            x0 <= x <= x1,
            width == c@.width,
            inside == (rect.y0 <= y),
            inside ==> pixels@ == channel::row_pixels(c@, data@, y - rect.y0) && pixels@.len()
                == width,
            r@ =~= Seq::new(
                (x - x0) as nat,
                |i: int| value_or(c@, data@, rect, x0 + i, y as int, other),
            ),
        decreases x1 - x,
    {
        let at: i128 = x as i128 - rect.x0 as i128;
        if inside && at >= 0 && at < width as i128 {
            r.push(pixels[at as usize]);
        } else {
            r.push(other);
        }
        x = x + 1;
    }
    r
}

/// The value of a mask at a point of the canvas, before it is inverted.
pub open spec fn mask_at(m: node::MaskView, d: Seq<u8>, x: int, y: int) -> u8 {
    if y < m.rect.y1 {
        value_or(m.channel, d, m.rect, x, y, m.default)
    } else {
        m.default
    }
}

/// The values of a mask in the columns from `x0` to `x1` of row `y`, before they are inverted.
pub fn mask_row(mask: &Mask, data: &[u8], y: i32, x0: usize, x1: usize) -> (r: Vec<u8>)
    requires
        x0 <= x1,
    ensures
        r@ == Seq::new((x1 - x0) as nat, |i: int| mask_at(mask@, data@, x0 + i, y as int)),
        forall|x: int|
            x0 <= x < x1 ==> #[trigger] r@[x - x0] == if mask.rect.y0 <= y < mask.rect.y1 && 0 <= x
                - mask.rect.x0 < mask.channel@.width {
                channel::row_pixels(mask.channel@, data@, y - mask.rect.y0)[x - mask.rect.x0]
            } else {
                mask.default
            },
{
    let n: usize = x1 - x0;
    if mask.rect.contains_row(y) {
        channel_row(&mask.channel, data, mask.rect, y, x0, x1, mask.default)
    } else {
        vec![mask.default; n]
    }
}

/// The number of channels that the color mode uses.
pub open spec fn color_count(color_mode: u16) -> int {
    if color_mode == 1 {
        1
    } else if color_mode == 4 {
        4
    } else {
        3
    }
}

/// The value of a color channel that is missing. CMYK is stored inverted, so there it is no ink.
pub open spec fn missing_color(color_mode: u16) -> u8 {
    if color_mode == 4 {
        255
    } else {
        0
    }
}

/// The opacity of a layer at a point of the canvas. A layer without an alpha channel is opaque.
pub open spec fn alpha_at(p: node::PixelsView, d: Seq<u8>, x: int, y: int) -> u8 {
    match p.alpha {
        Some(c) => value_or(c, d, p.rect, x, y, 0),
        None => 255,
    }
}

/// The value of color channel `c` of a layer at a point of the canvas.
pub open spec fn color_at(
    p: node::PixelsView,
    d: Seq<u8>,
    color_mode: u16,
    c: int,
    x: int,
    y: int,
) -> u8 {
    match p.color[c] {
        Some(channel) => value_or(channel, d, p.rect, x, y, 0),
        None => missing_color(color_mode),
    }
}

/// The values of a layer in some columns of a row.
#[derive(Debug)]
pub struct LayerRow {
    pub alpha: Vec<u8>,
    /// One list for each channel of the color mode.
    pub color: Vec<Vec<u8>>,
}

/// The values of color channel `c` of a layer.
fn color_row(
    pixels: &Pixels,
    color_mode: u16,
    c: usize,
    data: &[u8],
    y: i32,
    x0: usize,
    x1: usize,
) -> (r: Vec<u8>)
    requires
        x0 <= x1,
        c < 4,
    ensures
        r@ == Seq::new(
            (x1 - x0) as nat,
            |i: int| color_at(pixels@, data@, color_mode, c as int, x0 + i, y as int),
        ),
{
    assert(pixels@.color[c as int] == node::channel_view(pixels.color@[c as int]));
    match &pixels.color[c] {
        Some(channel) => {
            let r = channel_row(channel, data, pixels.rect, y, x0, x1, 0);
            assert(r@ =~= Seq::new(
                (x1 - x0) as nat,
                |i: int| color_at(pixels@, data@, color_mode, c as int, x0 + i, y as int),
            ));
            r
        },
        None => {
            let missing: u8 = if color_mode == 4 { 255 } else { 0 };
            let n: usize = x1 - x0;
            let r = vec![missing; n];
            assert(r@ =~= Seq::new(
                (x1 - x0) as nat,
                |i: int| color_at(pixels@, data@, color_mode, c as int, x0 + i, y as int),
            ));
            r
        },
    }
}

/// Whether every value is 0.
fn all_zero(s: &Vec<u8>) -> (r: bool)
    ensures
        r == (forall|i: int| 0 <= i < s@.len() ==> #[trigger] s@[i] == 0),
{
    let mut i: usize = 0;
    while i < s.len()
        invariant
            i <= s@.len(),
            forall|k: int| 0 <= k < i ==> #[trigger] s@[k] == 0,
        decreases s@.len() - i,
    {
        if s[i] != 0 {
            return false;
        }
        i = i + 1;
    }
    true
}

/// The pixel of a channel in the given column and row, or `other` where it has none there.
pub open spec fn pixel_or(
    c: channel::ChannelView,
    d: Seq<u8>,
    column: int,
    row: int,
    other: u8,
) -> u8 {
    if 0 <= row && 0 <= column < c.width {
        channel::row_pixels(c, d, row)[column]
    } else {
        other
    }
}

/// The values of a layer in the columns from `x0` to `x1` of row `y`, or nothing where it is
/// transparent in all of them.
pub fn layer_row(
    pixels: &Pixels,
    color_mode: u16,
    data: &[u8],
    y: i32,
    x0: usize,
    x1: usize,
) -> (r: Option<LayerRow>)
    requires
        x0 <= x1,
    ensures
        match r {
            Some(row) => {
                &&& row.alpha@ == Seq::new(
                    (x1 - x0) as nat,
                    |i: int| alpha_at(pixels@, data@, x0 + i, y as int),
                )
                &&& row.color@.len() == color_count(color_mode)
                &&& forall|c: int|
                    0 <= c < row.color@.len() ==> (#[trigger] row.color@[c])@ == Seq::new(
                        (x1 - x0) as nat,
                        |i: int| color_at(pixels@, data@, color_mode, c, x0 + i, y as int),
                    )
                &&& exists|x: int| x0 <= x < x1 && #[trigger] alpha_at(pixels@, data@, x, y as int)
                    != 0
                &&& row.color@.len() == if color_mode == 1 {
                    1int
                } else if color_mode == 4 {
                    4
                } else {
                    3
                }
                &&& forall|x: int|
                    x0 <= x < x1 ==> #[trigger] row.alpha@[x - x0] == match pixels.alpha {
                        Some(channel) => pixel_or(
                            channel@,
                            data@,
                            x - pixels.rect.x0,
                            y - pixels.rect.y0,
                            0,
                        ),
                        None => 255,
                    }
                &&& forall|c: int, x: int|
                    0 <= c < row.color@.len() && x0 <= x < x1 ==> #[trigger] row.color@[c]@[x - x0]
                        == match pixels.color@[c] {
                        Some(channel) => pixel_or(
                            channel@,
                            data@,
                            x - pixels.rect.x0,
                            y - pixels.rect.y0,
                            0,
                        ),
                        None => if color_mode == 4 {
                            255
                        } else {
                            0
                        },
                    }
            },
            None => forall|x: int|
                x0 <= x < x1 ==> #[trigger] alpha_at(pixels@, data@, x, y as int) == 0,
        },
{
    let n: usize = x1 - x0;
    let alpha: Vec<u8> = match &pixels.alpha {
        Some(c) => channel_row(c, data, pixels.rect, y, x0, x1, 0),
        None => vec![255u8; n],
    };
    let ghost all = Seq::new(
        (x1 - x0) as nat,
        |i: int| alpha_at(pixels@, data@, x0 + i, y as int),
    );
    assert(alpha@ =~= all);
    if all_zero(&alpha) {
        assert forall|x: int| x0 <= x < x1 implies #[trigger] alpha_at(
            pixels@,
            data@,
            x,
            y as int,
        ) == 0 by {
            assert(alpha@[x - x0] == all[x - x0]);
        }
        return None;
    }
    proof {
        let k = choose|k: int| 0 <= k < alpha@.len() && #[trigger] alpha@[k] != 0;
        assert(alpha_at(pixels@, data@, x0 + k, y as int) == all[k]);
    }
    let count: usize = if color_mode == 1 {
        1
    } else if color_mode == 4 {
        4
    } else {
        3
    };
    let mut color: Vec<Vec<u8>> = Vec::new();
    let mut c: usize = 0;
    while c < count
        invariant
            x0 <= x1,
            c <= count <= 4,
            color@.len() == c,
            forall|k: int|
                0 <= k < c ==> (#[trigger] color@[k])@ == Seq::new(
                    (x1 - x0) as nat,
                    |i: int| color_at(pixels@, data@, color_mode, k, x0 + i, y as int),
                ),
        decreases count - c,
    {
        color.push(color_row(pixels, color_mode, c, data, y, x0, x1));
        c = c + 1;
    }
    Some(LayerRow { alpha, color })
}

/// The last channel with an id is as wide as those with this id are.
proof fn last_channel_is_wide(s: Seq<(i16, channel::ChannelView)>, id: int, width: int)
    requires
        forall|k: int| 0 <= k < s.len() && (#[trigger] s[k]).0 == id ==> s[k].1.width == width,
    ensures
        node::last_channel(s, id) matches Some(c) ==> c.width == width,
    decreases s.len(),
{
    if s.len() > 0 {
        assert(s.last() == s[s.len() - 1]);
        assert forall|k: int|
            0 <= k < s.drop_last().len() && (#[trigger] s.drop_last()[k]).0
                == id implies s.drop_last()[k].1.width == width by {
            assert(s.drop_last()[k] == s[k]);
        }
        last_channel_is_wide(s.drop_last(), id, width);
    }
}

/// Every channel of a layer that can be drawn has a value at every point of the layer.
pub proof fn layers_have_values_everywhere(
    rec: layers::LayerView,
    canvas: Bounds,
    d: Seq<u8>,
    x: int,
    y: int,
)
    requires
        layer_info::channels_fit(rec),
        node::kind_of(rec, None, canvas).0 is Layer,
        Bounds::of(rec.bounds).contains(x, y),
    ensures
        node::kind_of(rec, None, canvas).0 matches node::KindView::Layer(p) && {
            &&& p.alpha matches Some(c) ==> value_at(c, d, p.rect, x, y) is Some
            &&& forall|k: int|
                0 <= k < 4 ==> (#[trigger] p.color[k] matches Some(c) ==> value_at(
                    c,
                    d,
                    p.rect,
                    x,
                    y,
                ) is Some)
        },
{
    let width = rec.bounds.columns();
    assert forall|id: int| -1 <= id <= 3 implies (#[trigger] node::last_channel(
        rec.channels,
        id,
    ) matches Some(c) ==> c.width == width) by {
        last_channel_is_wide(rec.channels, id, width);
    }
}

/// A color channel of a layer, and its opacity, are read from that channel alone: whatever the
/// others hold, the values stay.
pub proof fn channels_do_not_mix(
    p: node::PixelsView,
    q: node::PixelsView,
    d: Seq<u8>,
    color_mode: u16,
    c: int,
    x: int,
    y: int,
)
    requires
        p.rect == q.rect,
        0 <= c < 4,
    ensures
        p.color[c] == q.color[c] ==> color_at(p, d, color_mode, c, x, y) == color_at(
            q,
            d,
            color_mode,
            c,
            x,
            y,
        ),
        p.alpha == q.alpha ==> alpha_at(p, d, x, y) == alpha_at(q, d, x, y),
        p.color[c] matches Some(own) ==> (p.rect.contains(x, y) && x - p.rect.x0 < own.width
            ==> color_at(p, d, color_mode, c, x, y) == channel::row_pixels(
            own,
            d,
            y - p.rect.y0,
        )[x - p.rect.x0]),
        p.alpha matches Some(own) ==> (p.rect.contains(x, y) && x - p.rect.x0 < own.width
            ==> alpha_at(p, d, x, y) == channel::row_pixels(own, d, y - p.rect.y0)[x - p.rect.x0]),
        p.alpha is None ==> alpha_at(p, d, x, y) == 255,
        p.color[c] is None ==> color_at(p, d, color_mode, c, x, y) == if color_mode == 4 {
            255u8
        } else {
            0
        },
{
}

/// A mask has its values inside of its rectangle, and one value outside of it.
pub proof fn masks_have_one_value_outside(m: node::MaskView, d: Seq<u8>, x: int, y: int)
    requires
        m.channel.width == if m.rect.x0 < m.rect.x1 {
            m.rect.x1 - m.rect.x0
        } else {
            0
        },
    ensures
        m.rect.contains(x, y) ==> mask_at(m, d, x, y) == channel::row_pixels(
            m.channel,
            d,
            y - m.rect.y0,
        )[x - m.rect.x0],
        !m.rect.contains(x, y) ==> mask_at(m, d, x, y) == m.default,
{
}

/// Each level of reduction halves the image, and regions that follow each other leave no gap.
pub proof fn regions_join(r: Region, row: int)
    requires
        r.x + r.width <= i64::MAX,
        r.level < u32::MAX,
    ensures
        scale(0) == 1,
        scale((r.level + 1) as u32) == 2 * scale(r.level),
        (Region { x: (r.x + r.width) as i64, ..r }).left() == r.right(),
        r.top(row + 1) == r.top(row) + scale(r.level),
        r.x == 0 ==> r.left() == 0,
        r.y == 0 ==> r.top(0) == 0,
{
    vstd::arithmetic::power2::lemma2_to64();
    vstd::arithmetic::power2::lemma_pow2_unfold((r.level + 1) as nat);
    assert((r.y + (row + 1)) * scale(r.level) == (r.y + row) * scale(r.level) + scale(r.level))
        by (nonlinear_arith);
    assert(0 * scale(r.level) == 0);
}

} // verus!
