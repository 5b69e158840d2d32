//! The on-screen indicator: the settings that govern it, and the pixel
//! arithmetic that composes its image out of rendered layers.
//!
//! Frames are RGBA, four bytes per pixel; bytes after the last whole pixel
//! are left alone, as `chunks_exact(4)` leaves them.
use vstd::prelude::*;

use crate::config::{
    Config, DEFAULT_INDICATOR_DURATION, DEFAULT_INDICATOR_FOREGROUND_TRANSPARENCY,
    DEFAULT_INDICATOR_SIZE, DEFAULT_INDICATOR_TRANSPARENCY,
};
use crate::text::{decimal_text, lemma_parse_format_i32, parse_i32_text};

verus! {

/// What the indicator shows: the mute state, and how opaque its background
/// and its icon are.
#[derive(Clone, Copy, Debug)]
pub struct IndicatorState {
    pub muted: bool,
    pub background_transparency: u8,
    pub foreground_transparency: u8,
}

// ---------------------------------------------------------------------------
// Specifications
// ---------------------------------------------------------------------------

/// The number of bytes of a square RGBA frame of side `size`.
pub open spec fn frame_size(size: nat) -> nat {
    size * size * 4
}

/// The number of bytes that belong to whole pixels.
pub open spec fn pixel_bytes(len: nat) -> int {
    len - len % 4
}

/// The index of the alpha byte of the pixel that byte `i` belongs to.
pub open spec fn alpha_index(i: int) -> int {
    i - i % 4 + 3
}

/// A channel multiplied by an opacity, both on the scale 0 to 255.
pub open spec fn scale_channel(c: u8, alpha: u8) -> u8 {
    ((c * alpha) / 255) as u8
}

/// Every byte of every whole pixel scaled by `alpha`.
pub open spec fn scaled_by_alpha(frame: Seq<u8>, alpha: u8) -> Seq<u8> {
    Seq::new(
        frame.len(),
        |i: int|
            if i < pixel_bytes(frame.len()) {
                scale_channel(frame[i], alpha)
            } else {
                frame[i]
            },
    )
}

/// A premultiplied source channel drawn over a destination channel, kept to
/// eight bits.
pub open spec fn over_channel(dst: u8, src: u8, src_alpha: u8) -> u8 {
    ((src + (dst * (255 - src_alpha)) / 255) % 256) as u8
}

/// The number of pixels that two frames have in common.
pub open spec fn common_pixels(a: nat, b: nat) -> int {
    if a / 4 <= b / 4 {
        (a / 4) as int
    } else {
        (b / 4) as int
    }
}

/// `layer` drawn over `frame`, pixel by pixel, as far as both have whole
/// pixels.
pub open spec fn composited(frame: Seq<u8>, layer: Seq<u8>) -> Seq<u8> {
    Seq::new(
        frame.len(),
        |i: int|
            if i < 4 * common_pixels(frame.len(), layer.len()) {
                over_channel(frame[i], layer[i], layer[alpha_index(i)])
            } else {
                frame[i]
            },
    )
}

/// A premultiplied colour channel turned back into a straight one.
pub open spec fn unpremultiply_channel(c: u8, alpha: u8) -> u8 {
    if alpha == 0 || alpha == 255 {
        c
    } else if (c * 255) / (alpha as int) > 255 {
        255
    } else {
        ((c * 255) / (alpha as int)) as u8
    }
}

/// Each colour channel of each whole pixel divided by the pixel's alpha.
pub open spec fn unpremultiplied(frame: Seq<u8>) -> Seq<u8> {
    Seq::new(
        frame.len(),
        |i: int|
            if i < pixel_bytes(frame.len()) && i % 4 != 3 {
                unpremultiply_channel(frame[i], frame[alpha_index(i)])
            } else {
                frame[i]
            },
    )
}

/// The indicator's image, composed from its rendered background and icon
/// layers; a frame of side 0 or 1 stays transparent.
pub open spec fn indicator_frame(
    size: u32,
    state: IndicatorState,
    background: Seq<u8>,
    icon: Seq<u8>,
) -> Seq<u8> {
    if size <= 1 {
        Seq::new(frame_size(size as nat), |i: int| 0u8)
    } else {
        unpremultiplied(
            composited(
                scaled_by_alpha(background, state.background_transparency),
                scaled_by_alpha(icon, state.foreground_transparency),
            ),
        )
    }
}

/// Straight RGBA turned into premultiplied BGRA, the layout of a layered
/// window's bitmap; bytes after the last whole pixel are dropped.
pub open spec fn premultiplied_bgra(rgba: Seq<u8>) -> Seq<u8> {
    Seq::new(
        pixel_bytes(rgba.len()) as nat,
        |i: int|
            if i % 4 == 3 {
                rgba[i]
            } else {
                scale_channel(rgba[i - i % 4 + 2 - i % 4], rgba[alpha_index(i)])
            },
    )
}

// ---------------------------------------------------------------------------
// Pixel arithmetic
// ---------------------------------------------------------------------------

/// The byte length of a square RGBA frame of side `size`.
pub fn frame_len(size: u32) -> (n: usize)
    requires
        frame_size(size as nat) <= usize::MAX,
    ensures
        n == frame_size(size as nat),
{
    let s = size as usize;
    assert(s * s * 4 == frame_size(size as nat));
    assert(s * s <= s * s * 4) by (nonlinear_arith)
        requires
            s * s * 4 <= usize::MAX,
    ;
    s * s * 4
}

fn scale_byte(c: u8, alpha: u8) -> (r: u8)
    ensures
        r == scale_channel(c, alpha),
{
    assert(c * alpha <= 255 * 255) by (nonlinear_arith)
        requires
            c <= 255,
            alpha <= 255,
    ;
    let product = c as u16 * alpha as u16;
    assert(c * alpha / 255 <= 255) by (nonlinear_arith)
        requires
            c * alpha <= 255 * 255,
    ;
    (product / 255) as u8
}

/// Scales every byte of every whole pixel by `alpha`.
pub fn apply_alpha(frame: &mut Vec<u8>, alpha: u8)
    ensures
        final(frame)@ == scaled_by_alpha(old(frame)@, alpha),
{
    let end = frame.len() - frame.len() % 4;
    let mut i: usize = 0;
    while i < end
        invariant
            i <= end == pixel_bytes(old(frame)@.len()),
            frame@.len() == old(frame)@.len(),
            forall|j: int| 0 <= j < i ==> frame@[j] == scale_channel(old(frame)@[j], alpha),
            forall|j: int| i <= j < frame@.len() ==> frame@[j] == old(frame)@[j],
        decreases end - i,
    {
        let scaled = scale_byte(frame[i], alpha);
        frame.set(i, scaled);
        i += 1;
    }
    assert(frame@ =~= scaled_by_alpha(old(frame)@, alpha));
}

fn over_byte(dst: u8, src: u8, src_alpha: u8) -> (r: u8)
    ensures
        r == over_channel(dst, src, src_alpha),
{
    let inverse = 255 - src_alpha as u16;
    assert(dst * inverse <= 255 * 255) by (nonlinear_arith)
        requires
            dst <= 255,
            inverse <= 255,
    ;
    assert(dst * inverse / 255 <= 255) by (nonlinear_arith)
        requires
            dst * inverse <= 255 * 255,
    ;
    let sum: u16 = src as u16 + (dst as u16 * inverse) / 255;
    assert(sum as u8 == sum % 256) by (bit_vector);
    sum as u8
}

/// Draws `layer` over `frame`, pixel by pixel, as far as both have whole
/// pixels; the layer is premultiplied.
pub fn composite_layer(frame: &mut Vec<u8>, layer: &Vec<u8>)
    ensures
        final(frame)@ == composited(old(frame)@, layer@),
{
    let pixels = if frame.len() / 4 <= layer.len() / 4 {
        frame.len() / 4
    } else {
        layer.len() / 4
    };
    let ghost target = composited(old(frame)@, layer@);
    let mut p: usize = 0;
    while p < pixels
        invariant
            p <= pixels == common_pixels(old(frame)@.len(), layer@.len()),
            pixels <= old(frame)@.len() / 4,
            pixels <= layer@.len() / 4,
            frame@.len() == old(frame)@.len() <= usize::MAX,
            target == composited(old(frame)@, layer@),
            forall|j: int| 0 <= j < 4 * p ==> frame@[j] == target[j],
            forall|j: int| 4 * p <= j < frame@.len() ==> frame@[j] == old(frame)@[j],
        decreases pixels - p,
    {
        assert(4 * p + 4 <= frame@.len() && 4 * p + 4 <= layer@.len()) by (nonlinear_arith)
            requires
                p < frame@.len() / 4,
                p < layer@.len() / 4,
        ;
        let base = 4 * p;
        let src_alpha = layer[base + 3];
        let c0 = over_byte(frame[base], layer[base], src_alpha);
        let c1 = over_byte(frame[base + 1], layer[base + 1], src_alpha);
        let c2 = over_byte(frame[base + 2], layer[base + 2], src_alpha);
        let c3 = over_byte(frame[base + 3], src_alpha, src_alpha);
        frame.set(base, c0);
        frame.set(base + 1, c1);
        frame.set(base + 2, c2);
        frame.set(base + 3, c3);
        assert(alpha_index(base as int) == base + 3);
        assert(alpha_index(base + 1) == base + 3);
        assert(alpha_index(base + 2) == base + 3);
        assert(alpha_index(base + 3) == base + 3);
        p += 1;
    }
    assert(frame@ =~= target);
}

fn unpremultiply_byte(c: u8, alpha: u8) -> (r: u8)
    requires
        alpha != 0,
    ensures
        alpha != 255 ==> r == unpremultiply_channel(c, alpha),
{
    let scaled = (c as u16 * 255) / alpha as u16;
    if scaled > 255 {
        255
    } else {
        scaled as u8
    }
}

/// Turns every whole pixel from premultiplied back to straight colour,
/// leaving fully transparent and fully opaque pixels as they are.
pub fn unpremultiply_frame(frame: &mut Vec<u8>)
    ensures
        final(frame)@ == unpremultiplied(old(frame)@),
{
    let pixels = frame.len() / 4;
    let ghost target = unpremultiplied(old(frame)@);
    let mut p: usize = 0;
    while p < pixels
        invariant
            p <= pixels == old(frame)@.len() / 4,
            frame@.len() == old(frame)@.len() <= usize::MAX,
            target == unpremultiplied(old(frame)@),
            forall|j: int| 0 <= j < 4 * p ==> frame@[j] == target[j],
            forall|j: int| 4 * p <= j < frame@.len() ==> frame@[j] == old(frame)@[j],
        decreases pixels - p,
    {
        assert(4 * p + 4 <= frame@.len()) by (nonlinear_arith)
            requires
                p < frame@.len() / 4,
        ;
        let base = 4 * p;
        let alpha = frame[base + 3];
        assert(alpha_index(base as int) == base + 3);
        assert(alpha_index(base + 1) == base + 3);
        assert(alpha_index(base + 2) == base + 3);
        assert((base + 3) % 4 == 3);
        if alpha != 0 && alpha != 255 {
            let c0 = unpremultiply_byte(frame[base], alpha);
            let c1 = unpremultiply_byte(frame[base + 1], alpha);
            let c2 = unpremultiply_byte(frame[base + 2], alpha);
            frame.set(base, c0);
            frame.set(base + 1, c1);
            frame.set(base + 2, c2);
        }
        p += 1;
    }
    assert(frame@ =~= target);
}

/// Scales the rendered icon `layer` by `alpha` and draws it over `frame`.
pub fn draw_svg_icon_with_alpha(frame: &mut Vec<u8>, layer: Vec<u8>, alpha: u8)
    ensures
        final(frame)@ == composited(old(frame)@, scaled_by_alpha(layer@, alpha)),
{
    let mut layer = layer;
    apply_alpha(&mut layer, alpha);
    composite_layer(frame, &layer);
}

fn copy_bytes(bytes: &Vec<u8>) -> (r: Vec<u8>)
    ensures
        r@ == bytes@,
{
    let mut r: Vec<u8> = Vec::new();
    let mut i: usize = 0;
    while i < bytes.len()
        invariant
            i <= bytes.len(),
            r@ == bytes@.take(i as int),
        decreases bytes.len() - i,
    {
        r.push(bytes[i]);
        i += 1;
        assert(r@ =~= bytes@.take(i as int));
    }
    assert(bytes@.take(bytes.len() as int) =~= bytes@);
    r
}

/// The indicator's RGBA image of side `size`, composed from the rendered
/// background and icon layers (each rendered onto a transparent frame of
/// that side): the background is scaled by the background opacity, the
/// icon by the icon opacity and drawn over it, and the result is turned
/// back into straight colour. A frame of side 0 or 1 stays transparent.
pub fn render_indicator_rgba(
    size: u32,
    state: IndicatorState,
    background: &Vec<u8>,
    icon: &Vec<u8>,
) -> (frame: Vec<u8>)
    requires
        frame_size(size as nat) <= usize::MAX,
        size > 1 ==> background@.len() == frame_size(size as nat),
        size > 1 ==> icon@.len() == frame_size(size as nat),
    ensures
        frame@ == indicator_frame(size, state, background@, icon@),
{
    let len = frame_len(size);
    if size <= 1 {
        let mut frame: Vec<u8> = Vec::new();
        let mut i: usize = 0;
        while i < len
            invariant
                i <= len,
                frame@.len() == i,
                forall|j: int| 0 <= j < i ==> frame@[j] == 0u8,
            decreases len - i,
        {
            frame.push(0u8);
            i += 1;
        }
        assert(frame@ =~= indicator_frame(size, state, background@, icon@));
        return frame;
    }
    let mut frame = copy_bytes(background);
    apply_alpha(&mut frame, state.background_transparency);
    draw_svg_icon_with_alpha(&mut frame, copy_bytes(icon), state.foreground_transparency);
    unpremultiply_frame(&mut frame);
    frame
}

/// The bitmap of the layered overlay window for an RGBA image of side
/// `size`: premultiplied BGRA, or `None` when the image does not have the
/// length of a frame of that side.
pub fn overlay_bitmap(size: u32, rgba: &Vec<u8>) -> (r: Option<Vec<u8>>)
    ensures
        match r {
            Some(bgra) => rgba@.len() == frame_size(size as nat) && bgra@ == premultiplied_bgra(rgba@),
            None => rgba@.len() != frame_size(size as nat),
        },
{
    assert(size * size * 4 <= 0x4_0000_0000_0000_0000) by (nonlinear_arith)
        requires
            size <= u32::MAX,
    ;
    let expected: u128 = size as u128 * size as u128 * 4;
    assert(expected == frame_size(size as nat));
    if rgba.len() as u128 != expected {
        return None;
    }
    let ghost target = premultiplied_bgra(rgba@);
    let pixels = rgba.len() / 4;
    let mut bgra: Vec<u8> = Vec::new();
    let mut p: usize = 0;
    while p < pixels
        invariant
            p <= pixels == rgba@.len() / 4,
            rgba@.len() <= usize::MAX,
            target == premultiplied_bgra(rgba@),
            bgra@.len() == 4 * p,
            forall|j: int| 0 <= j < 4 * p ==> bgra@[j] == target[j],
        decreases pixels - p,
    {
        assert(4 * p + 4 <= rgba@.len()) by (nonlinear_arith)
            requires
                p < rgba@.len() / 4,
        ;
        assert(4 * p + 4 <= pixel_bytes(rgba@.len())) by (nonlinear_arith)
            requires
                p < rgba@.len() / 4,
        ;
        let base = 4 * p;
        let alpha = rgba[base + 3];
        assert(alpha_index(base as int) == base + 3);
        assert(alpha_index(base + 1) == base + 3);
        assert(alpha_index(base + 2) == base + 3);
        assert((base + 1) % 4 == 1 && (base + 2) % 4 == 2 && (base + 3) % 4 == 3 && base % 4 == 0);
        let b = scale_byte(rgba[base + 2], alpha);
        let g = scale_byte(rgba[base + 1], alpha);
        let r = scale_byte(rgba[base], alpha);
        bgra.push(b);
        bgra.push(g);
        bgra.push(r);
        bgra.push(alpha);
        p += 1;
    }
    assert(4 * pixels == pixel_bytes(rgba@.len()));
    assert(bgra@ =~= target);
    Some(bgra)
}

// ---------------------------------------------------------------------------
// Settings
// ---------------------------------------------------------------------------

/// How the indicator is shown once the settings allow it.
#[derive(Clone, Copy, Debug)]
pub struct IndicatorSettings {
    pub duration_ms: u32,
    pub base_size: u32,
    pub background_transparency: u8,
    pub foreground_transparency: u8,
}

/// The integer value of a setting, or `default` where the setting is
/// missing or is not a decimal `i32`.
pub open spec fn int_setting(m: Map<Seq<char>, Seq<char>>, key: Seq<char>, default: i32) -> i32 {
    if m.contains_key(key) && parse_i32_text(m[key]) is Some {
        parse_i32_text(m[key])->0
    } else {
        default
    }
}

/// An opacity clamped into 0 to 255.
pub open spec fn clamp_opacity(v: i32) -> u8 {
    if v < 0 {
        0
    } else if v > 255 {
        255
    } else {
        v as u8
    }
}

/// The indicator settings that the settings `m` give: none when the
/// duration or the size is not positive, or when both opacities are 0.
pub open spec fn indicator_settings_of(m: Map<Seq<char>, Seq<char>>) -> Option<IndicatorSettings> {
    let duration = int_setting(m, "indicatorDuration"@, DEFAULT_INDICATOR_DURATION);
    let base_size = int_setting(m, "indicatorSize"@, DEFAULT_INDICATOR_SIZE);
    let background = clamp_opacity(
        int_setting(m, "indicatorTransparency"@, DEFAULT_INDICATOR_TRANSPARENCY),
    );
    let foreground = clamp_opacity(
        int_setting(
            m,
            "indicatorForegroundTransparency"@,
            DEFAULT_INDICATOR_FOREGROUND_TRANSPARENCY,
        ),
    );
    if duration <= 0 || base_size <= 0 || (background == 0 && foreground == 0) {
        None
    } else {
        Some(
            IndicatorSettings {
                duration_ms: duration as u32,
                base_size: base_size as u32,
                background_transparency: background,
                foreground_transparency: foreground,
            },
        )
    }
}

fn int_setting_or(config: &Config, key: &str, default: i32) -> (r: i32)
    ensures
        r == int_setting(config@, key@, default),
{
    match config.int_value(key) {
        Some(v) => v,
        None => default,
    }
}

fn clamp_to_opacity(v: i32) -> (r: u8)
    ensures
        r == clamp_opacity(v),
{
    if v < 0 {
        0
    } else if v > 255 {
        255
    } else {
        v as u8
    }
}

/// Reads the indicator settings, with their defaults; `None` when the
/// indicator is switched off.
pub fn indicator_settings(config: &Config) -> (r: Option<IndicatorSettings>)
    ensures
        r == indicator_settings_of(config@),
{
    let duration = int_setting_or(config, "indicatorDuration", DEFAULT_INDICATOR_DURATION);
    let base_size = int_setting_or(config, "indicatorSize", DEFAULT_INDICATOR_SIZE);
    let background = clamp_to_opacity(
        int_setting_or(config, "indicatorTransparency", DEFAULT_INDICATOR_TRANSPARENCY),
    );
    let foreground = clamp_to_opacity(
        int_setting_or(
            config,
            "indicatorForegroundTransparency",
            DEFAULT_INDICATOR_FOREGROUND_TRANSPARENCY,
        ),
    );
    if duration <= 0 || base_size <= 0 || (background == 0 && foreground == 0) {
        None
    } else {
        Some(
            IndicatorSettings {
                duration_ms: duration as u32,
                base_size: base_size as u32,
                background_transparency: background,
                foreground_transparency: foreground,
            },
        )
    }
}

/// The side of the indicator on a display of `dpi` dots per inch: the base
/// size scaled from 96 dpi (the product saturating at `u32::MAX`), and at
/// least 1.
pub fn scaled_indicator_size(base_size: u32, dpi: u32) -> (r: u32)
    ensures
        r == ({
            let product = if base_size * dpi > u32::MAX {
                u32::MAX as int
            } else {
                base_size * dpi
            };
            if product / 96 < 1 {
                1
            } else {
                product / 96
            }
        }),
{
    assert(base_size * dpi <= u32::MAX * u32::MAX) by (nonlinear_arith)
        requires
            base_size <= u32::MAX,
            dpi <= u32::MAX,
    ;
    let wide = base_size as u64 * dpi as u64;
    let product: u32 = if wide > u32::MAX as u64 {
        u32::MAX
    } else {
        wide as u32
    };
    let scaled = product / 96;
    if scaled < 1 {
        1
    } else {
        scaled
    }
}

// ---------------------------------------------------------------------------
// Laws
// ---------------------------------------------------------------------------

/// An opacity of 255 leaves a layer as it was rendered.
pub proof fn lemma_full_opacity_keeps_layer(frame: Seq<u8>)
    ensures
        scaled_by_alpha(frame, 255) == frame,
{
    assert(scaled_by_alpha(frame, 255) =~= frame);
}

/// An opacity of 0 makes every whole pixel of a layer transparent.
pub proof fn lemma_zero_opacity_clears_layer(frame: Seq<u8>)
    ensures
        forall|i: int|
            0 <= i < pixel_bytes(frame.len()) ==> #[trigger] scaled_by_alpha(frame, 0)[i] == 0,
{
}

/// Drawing a layer whose common pixels are all transparent black leaves
/// the frame as it was.
pub proof fn lemma_transparent_layer_keeps_frame(frame: Seq<u8>, layer: Seq<u8>)
    requires
        forall|i: int| 0 <= i < 4 * common_pixels(frame.len(), layer.len()) ==> #[trigger] layer[i] == 0,
    ensures
        composited(frame, layer) == frame,
{
    assert forall|i: int| 0 <= i < frame.len() implies #[trigger] composited(frame, layer)[i]
        == frame[i] by {
        if i < 4 * common_pixels(frame.len(), layer.len()) {
            assert(alpha_index(i) < 4 * common_pixels(frame.len(), layer.len()));
            assert(layer[alpha_index(i)] == 0);
            assert(frame[i] * 255 / 255 == frame[i]);
        }
    }
    assert(composited(frame, layer) =~= frame);
}

/// An icon drawn with opacity 0 leaves the background as it was.
pub proof fn lemma_invisible_icon_keeps_background(background: Seq<u8>, icon: Seq<u8>)
    requires
        background.len() == icon.len(),
    ensures
        composited(background, scaled_by_alpha(icon, 0)) == background,
{
    lemma_zero_opacity_clears_layer(icon);
    let layer = scaled_by_alpha(icon, 0);
    assert forall|i: int| 0 <= i < 4 * common_pixels(background.len(), layer.len()) implies #[trigger] layer[i]
        == 0 by {
        assert(4 * common_pixels(background.len(), layer.len()) <= pixel_bytes(icon.len()));
    }
    lemma_transparent_layer_keeps_frame(background, layer);
}

/// Where a layer's pixel is fully opaque, drawing it replaces the frame's
/// pixel.
pub proof fn lemma_opaque_pixel_replaces(frame: Seq<u8>, layer: Seq<u8>, i: int)
    requires
        0 <= i < 4 * common_pixels(frame.len(), layer.len()),
        layer[alpha_index(i)] == 255,
    ensures
        composited(frame, layer)[i] == layer[i],
{
}

/// The icon is drawn over the background: where an icon pixel is fully
/// opaque and the icon is drawn at full opacity, the indicator shows that
/// icon pixel, whatever the background.
pub proof fn lemma_opaque_icon_pixel_shows(
    size: u32,
    state: IndicatorState,
    background: Seq<u8>,
    icon: Seq<u8>,
    i: int,
)
    requires
        size > 1,
        background.len() == frame_size(size as nat),
        icon.len() == frame_size(size as nat),
        0 <= i < frame_size(size as nat),
        state.foreground_transparency == 255,
        icon[i - i % 4 + 3] == 255,
    ensures
        indicator_frame(size, state, background, icon)[i] == icon[i],
{
    let n = frame_size(size as nat);
    assert(n % 4 == 0) by (nonlinear_arith)
        requires
            n == size * size * 4,
    ;
    let a = i - i % 4 + 3;
    assert(a < n && a % 4 == 3 && alpha_index(a) == a && alpha_index(i) == a);
    lemma_full_opacity_keeps_layer(icon);
    let sb = scaled_by_alpha(background, state.background_transparency);
    let c = composited(sb, icon);
    assert(common_pixels(sb.len(), icon.len()) == n / 4);
    assert(4 * (n / 4) == n);
    assert(c[a] == over_channel(sb[a], icon[a], icon[a]));
    assert(c[a] == 255u8);
    assert(c[i] == over_channel(sb[i], icon[i], 255));
    assert(sb[i] * 0 == 0);
    assert(c[i] == icon[i]);
    assert(pixel_bytes(c.len()) == n);
}

/// Pixel `p` of the overlay bitmap is pixel `p` of the image, with its
/// colour bytes in blue, green, red order, each multiplied by the pixel's
/// alpha, and the alpha kept.
pub proof fn lemma_overlay_bitmap_pixelwise(rgba: Seq<u8>)
    ensures
        premultiplied_bgra(rgba).len() == 4 * (rgba.len() / 4),
        forall|p: int, c: int|
            0 <= p < rgba.len() / 4 && 0 <= c < 3 ==> #[trigger] premultiplied_bgra(rgba)[4 * p + c]
                == scale_channel(rgba[4 * p + 2 - c], rgba[4 * p + 3]),
        forall|p: int|
            0 <= p < rgba.len() / 4 ==> #[trigger] premultiplied_bgra(rgba)[4 * p + 3] == rgba[4 * p
                + 3],
{
    let out = premultiplied_bgra(rgba);
    assert forall|p: int, c: int|
        0 <= p < rgba.len() / 4 && 0 <= c < 3 implies #[trigger] out[4 * p + c] == scale_channel(
        rgba[4 * p + 2 - c],
        rgba[4 * p + 3],
    ) by {
        assert(4 * p + 4 <= pixel_bytes(rgba.len())) by (nonlinear_arith)
            requires
                0 <= p < rgba.len() / 4,
        ;
        assert((4 * p + c) % 4 == c);
        assert(alpha_index(4 * p + c) == 4 * p + 3);
    }
    assert forall|p: int| 0 <= p < rgba.len() / 4 implies #[trigger] out[4 * p + 3] == rgba[4 * p
        + 3] by {
        assert(4 * p + 4 <= pixel_bytes(rgba.len())) by (nonlinear_arith)
            requires
                0 <= p < rgba.len() / 4,
        ;
        assert((4 * p + 3) % 4 == 3);
    }
}

/// When the indicator is on, it uses the configured values: a duration or
/// size that the settings give as a decimal `i32` is the one shown, the
/// default only where the setting is missing or not a number, and an
/// opacity in 0 to 255 is used as it is (below 0 gives 0, above 255 gives
/// 255).
pub proof fn lemma_indicator_settings_follow_config(m: Map<Seq<char>, Seq<char>>)
    ensures
        indicator_settings_of(m) matches Some(s) ==> {
            &&& (m.contains_key("indicatorDuration"@) && parse_i32_text(m["indicatorDuration"@]) is Some)
                ==> s.duration_ms == parse_i32_text(m["indicatorDuration"@])->0
            &&& !(m.contains_key("indicatorDuration"@) && parse_i32_text(m["indicatorDuration"@]) is Some)
                ==> s.duration_ms == 1000
            &&& (m.contains_key("indicatorSize"@) && parse_i32_text(m["indicatorSize"@]) is Some)
                ==> s.base_size == parse_i32_text(m["indicatorSize"@])->0
            &&& !(m.contains_key("indicatorSize"@) && parse_i32_text(m["indicatorSize"@]) is Some)
                ==> s.base_size == 240
            &&& (m.contains_key("indicatorTransparency"@) && parse_i32_text(m["indicatorTransparency"@]) is Some && 0 <= parse_i32_text(m["indicatorTransparency"@])->0 <= 255) ==> s.background_transparency == parse_i32_text(m["indicatorTransparency"@])->0
            &&& (m.contains_key("indicatorTransparency"@) && parse_i32_text(m["indicatorTransparency"@]) is Some && parse_i32_text(m["indicatorTransparency"@])->0 < 0) ==> s.background_transparency == 0
            &&& (m.contains_key("indicatorTransparency"@) && parse_i32_text(m["indicatorTransparency"@]) is Some && parse_i32_text(m["indicatorTransparency"@])->0 > 255) ==> s.background_transparency == 255
            &&& !(m.contains_key("indicatorTransparency"@) && parse_i32_text(m["indicatorTransparency"@]) is Some) ==> s.background_transparency == 200
            &&& (m.contains_key("indicatorForegroundTransparency"@) && parse_i32_text(m["indicatorForegroundTransparency"@]) is Some && 0 <= parse_i32_text(m["indicatorForegroundTransparency"@])->0 <= 255) ==> s.foreground_transparency == parse_i32_text(m["indicatorForegroundTransparency"@])->0
            &&& (m.contains_key("indicatorForegroundTransparency"@) && parse_i32_text(m["indicatorForegroundTransparency"@]) is Some && parse_i32_text(m["indicatorForegroundTransparency"@])->0 < 0) ==> s.foreground_transparency == 0
            &&& (m.contains_key("indicatorForegroundTransparency"@) && parse_i32_text(m["indicatorForegroundTransparency"@]) is Some && parse_i32_text(m["indicatorForegroundTransparency"@])->0 > 255) ==> s.foreground_transparency == 255
            &&& !(m.contains_key("indicatorForegroundTransparency"@) && parse_i32_text(m["indicatorForegroundTransparency"@]) is Some) ==> s.foreground_transparency == 255
            &&& s.duration_ms > 0 && s.base_size > 0
            &&& s.background_transparency > 0 || s.foreground_transparency > 0
        },
        (m.contains_key("indicatorDuration"@) && parse_i32_text(m["indicatorDuration"@]) is Some
            && parse_i32_text(m["indicatorDuration"@])->0 <= 0) ==> indicator_settings_of(m) is None,
        (m.contains_key("indicatorSize"@) && parse_i32_text(m["indicatorSize"@]) is Some
            && parse_i32_text(m["indicatorSize"@])->0 <= 0) ==> indicator_settings_of(m) is None,
{
}

/// A duration written into the settings as a positive number is the
/// duration the indicator is shown for.
pub proof fn lemma_written_duration_is_shown(m: Map<Seq<char>, Seq<char>>, d: i32)
    requires
        d > 0,
        m.contains_key("indicatorDuration"@),
        m["indicatorDuration"@] == decimal_text(d as int),
    ensures
        indicator_settings_of(m) matches Some(s) ==> s.duration_ms == d,
{
    lemma_parse_format_i32(d);
    lemma_indicator_settings_follow_config(m);
}

} // verus!
